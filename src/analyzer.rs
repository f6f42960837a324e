//! The whole analysis: popularity ranking, one admission pass over every
//! offering, and the target applicant's standing.
use vstd::prelude::*;
use crate::models::{key_of, StudentRecord};
use crate::order::sort_by;
use crate::outcome::{applied, listed, outcome_is, position_in_list, target_outcome, TargetOutcome};
use crate::popularity::{
    calculate_all_program_popularities, collect_offerings, flat, flatten_records, make_offering_key,
    offering_key, offering_records, offerings_of, popularity_ranking, records_of,
    Offering, ProgramPopularity,
};
use crate::preferences::{applicants_of, by_seating, prepare_eager_applicants, sort_for_seating, EagerApplicant};
use crate::order::lemma_sort_by_contains;
use crate::preferences::{applicant_keys, applicant_is, applications_of, by_priority};
use crate::simulation::{
    lemma_capacity_respected, lemma_single_assignment, queue_consistent, seat_all, seats_distinct,
    simulate_admission,
};
use crate::text::{canon, normalize_snils};

verus! {

/// The admitted list of one offering.
#[derive(Debug, Clone)]
pub struct OfferingResult {
    pub program_name: String,
    pub funding_source: String,
    pub program_key: String,
    pub available_places: u32,
    /// Raw identifiers in order of admission.
    pub admitted: Vec<String>,
}

/// The outcome of one analysis.
#[derive(Debug, Clone)]
pub struct AdmissionAnalysis {
    /// Offerings, the most sought-after first.
    pub program_popularities: Vec<ProgramPopularity>,
    /// One per offering, in order of first appearance.
    pub final_admission_results: Vec<OfferingResult>,
    pub target_applicant_found: bool,
    /// For each record of the target: the offering key, and whether the
    /// target is admitted there.
    pub target_applicant_results: Vec<(String, bool)>,
    /// The target's standing on each offering that it applied to.
    pub target_outcomes: Vec<TargetOutcome>,
}

/// Runs analyses for one target applicant.
pub struct AdmissionAnalyzer<'a> {
    pub target_snils: &'a str,
}

/// Whether `lists` are the admitted lists of one pass over `entries`: the
/// offerings in order of first appearance, the applicants queued by
/// seating order, nobody excluded by an earlier round.
pub open spec fn admission_lists(
    lists: Seq<Seq<Seq<char>>>,
    entries: Seq<(String, StudentRecord)>,
    target: Seq<char>,
) -> bool {
    exists|q: Seq<EagerApplicant>|
        applicants_of(q, entries) && lists == seat_all(
            offerings_of(entries),
            sort_by(q, by_seating()),
            Seq::empty(),
            target,
        ).0
}

/// Whether `r` holds, for each offering of `offers`, its admitted list in `lists`.
pub open spec fn results_are(r: Seq<OfferingResult>, offers: Seq<Offering>, lists: Seq<Seq<Seq<char>>>) -> bool {
    &&& r.len() == offers.len()
    &&& forall|t: int|
        0 <= t < r.len() ==> {
            &&& (#[trigger] r[t]).program_name@ == offers[t].program_name@
            &&& r[t].funding_source@ == offers[t].funding_source@
            &&& r[t].program_key@ == offering_key(offers[t].program_name@, offers[t].funding_source@)
            &&& r[t].available_places == offers[t].available_places
            &&& r[t].admitted.deep_view() == lists[t]
        }
}

/// Whether some result for the offering `(name, funding)` lists `k`.
pub open spec fn admitted_to(results: Seq<OfferingResult>, name: Seq<char>, funding: Seq<char>, k: Seq<char>) -> bool {
    exists|t: int|
        0 <= t < results.len() && (#[trigger] results[t]).program_name@ == name
            && results[t].funding_source@ == funding && listed(results[t].admitted.deep_view(), k)
}

/// For each record of the applicant `k`: its offering key, and whether `k`
/// is admitted there.
pub open spec fn target_results_of(
    entries: Seq<(String, StudentRecord)>,
    results: Seq<OfferingResult>,
    k: Seq<char>,
) -> Seq<(Seq<char>, bool)>
    decreases entries.len(),
{
    if entries.len() == 0 {
        Seq::empty()
    } else {
        let prev = target_results_of(entries.drop_last(), results, k);
        let e = entries.last();
        if key_of(e.1) == k {
            prev.push(
                (
                    offering_key(e.0@, e.1.funding_source@),
                    admitted_to(results, e.0@, e.1.funding_source@, k),
                ),
            )
        } else {
            prev
        }
    }
}

/// The view of an (offering key, admitted) pair.
pub open spec fn pair_view(p: (String, bool)) -> (Seq<char>, bool) {
    (p.0@, p.1)
}

/// The places of the offerings among the first `n` that `k` applied to.
pub open spec fn applied_offerings(
    offers: Seq<Offering>,
    entries: Seq<(String, StudentRecord)>,
    k: Seq<char>,
    n: int,
) -> Seq<int>
    decreases n,
{
    if n <= 0 {
        Seq::empty()
    } else {
        let prev = applied_offerings(offers, entries, k, n - 1);
        if applied(
            records_of(entries, offers[n - 1].program_name@, offers[n - 1].funding_source@),
            k,
        ) {
            prev.push(n - 1)
        } else {
            prev
        }
    }
}

/// Whether `outs` holds the standing of `k` on each offering that it
/// applied to, in the order of the offerings.
pub open spec fn outcomes_are(
    outs: Seq<TargetOutcome>,
    offers: Seq<Offering>,
    lists: Seq<Seq<Seq<char>>>,
    entries: Seq<(String, StudentRecord)>,
    k: Seq<char>,
) -> bool {
    let idx = applied_offerings(offers, entries, k, offers.len() as int);
    &&& outs.len() == idx.len()
    &&& forall|m: int|
        0 <= m < outs.len() ==> outcome_is(
            #[trigger] outs[m],
            offers[idx[m]],
            lists[idx[m]],
            records_of(entries, offers[idx[m]].program_name@, offers[idx[m]].funding_source@),
            k,
        )
}

/// The program names of the records, in order of first appearance.
pub open spec fn program_names(entries: Seq<(String, StudentRecord)>) -> Seq<Seq<char>>
    decreases entries.len(),
{
    if entries.len() == 0 {
        Seq::empty()
    } else {
        let prev = program_names(entries.drop_last());
        if prev.contains(entries.last().0@) {
            prev
        } else {
            prev.push(entries.last().0@)
        }
    }
}

/// The funding sources of one program's records, in order of first appearance.
pub open spec fn fundings_of(entries: Seq<(String, StudentRecord)>, name: Seq<char>) -> Seq<Seq<char>>
    decreases entries.len(),
{
    if entries.len() == 0 {
        Seq::empty()
    } else {
        let prev = fundings_of(entries.drop_last(), name);
        let e = entries.last();
        if e.0@ != name || prev.contains(e.1.funding_source@) {
            prev
        } else {
            prev.push(e.1.funding_source@)
        }
    }
}

fn string_listed(keys: &Vec<String>, k: &String) -> (r: bool)
    ensures
        r == keys.deep_view().contains(k@),
{
    let mut t: usize = 0;
    while t < keys.len()
        invariant
            t <= keys.len(),
            forall|u: int| 0 <= u < t ==> keys.deep_view()[u] != k@,
        decreases keys.len() - t,
    {
        if keys[t] == *k {
            assert(keys.deep_view()[t as int] == k@);
            return true;
        }
        t = t + 1;
    }
    false
}

fn push_string(keys: &mut Vec<String>, k: String)
    ensures
        final(keys).deep_view() == old(keys).deep_view().push(k@),
{
    let ghost old_keys = keys@;
    let ghost old_view = keys.deep_view();
    keys.push(k);
    proof {
        assert forall|j: int| 0 <= j < keys.len() implies keys.deep_view()[j] == old_view.push(k@)[j] by {
            if j < keys.len() - 1 {
                assert(keys@[j] == old_keys[j]);
            }
        }
        assert(keys.deep_view() =~= old_view.push(k@));
    }
}

/// The program names of the records, in order of first appearance.
pub fn collect_program_names(entries: &Vec<(String, StudentRecord)>) -> (r: Vec<String>)
    ensures
        r.deep_view() == program_names(entries@),
{
    let mut names: Vec<String> = Vec::new();
    let mut i: usize = 0;
    while i < entries.len()
        invariant
            i <= entries.len(),
            names.deep_view() == program_names(entries@.take(i as int)),
        decreases entries.len() - i,
    {
        assert(entries@.take(i + 1).drop_last() == entries@.take(i as int));
        if !string_listed(&names, &entries[i].0) {
            push_string(&mut names, entries[i].0.clone());
        }
        i = i + 1;
    }
    assert(entries@.take(entries.len() as int) == entries@);
    names
}

/// The funding sources of one program's records, in order of first appearance.
pub fn collect_fundings(entries: &Vec<(String, StudentRecord)>, name: &String) -> (r: Vec<String>)
    ensures
        r.deep_view() == fundings_of(entries@, name@),
{
    let mut fundings: Vec<String> = Vec::new();
    let mut i: usize = 0;
    while i < entries.len()
        invariant
            i <= entries.len(),
            fundings.deep_view() == fundings_of(entries@.take(i as int), name@),
        decreases entries.len() - i,
    {
        assert(entries@.take(i + 1).drop_last() == entries@.take(i as int));
        if entries[i].0 == *name && !string_listed(&fundings, &entries[i].1.funding_source) {
            push_string(&mut fundings, entries[i].1.funding_source.clone());
        }
        i = i + 1;
    }
    assert(entries@.take(entries.len() as int) == entries@);
    fundings
}

/// Whether the applicant `k` has a record among `entries`.
pub open spec fn found_in(entries: Seq<(String, StudentRecord)>, k: Seq<char>) -> bool {
    exists|i: int| 0 <= i < entries.len() && key_of((#[trigger] entries[i]).1) == k
}

fn copy_strings(v: &Vec<String>) -> (r: Vec<String>)
    ensures
        r@ == v@,
{
    let mut out: Vec<String> = Vec::new();
    let mut i: usize = 0;
    while i < v.len()
        invariant
            i <= v.len(),
            out@ == v@.take(i as int),
        decreases v.len() - i,
    {
        out.push(v[i].clone());
        assert(out@ =~= v@.take(i + 1));
        i = i + 1;
    }
    assert(v@.take(v.len() as int) == v@);
    out
}

/// Whether some result for the offering `(name, funding)` lists `k`.
pub fn is_admitted_to(results: &Vec<OfferingResult>, name: &String, funding: &String, k: &String) -> (r:
    bool)
    ensures
        r == admitted_to(results@, name@, funding@, k@),
{
    let mut t: usize = 0;
    while t < results.len()
        invariant
            t <= results.len(),
            forall|u: int|
                0 <= u < t ==> !((#[trigger] results@[u]).program_name@ == name@
                    && results@[u].funding_source@ == funding@ && listed(
                    results@[u].admitted.deep_view(),
                    k@,
                )),
        decreases results.len() - t,
    {
        let res = &results[t];
        if res.program_name == *name && res.funding_source == *funding {
            if position_in_list(&res.admitted, k).is_some() {
                return true;
            }
        }
        t = t + 1;
    }
    false
}

impl<'a> AdmissionAnalyzer<'a> {
    /// An analyzer for the applicant `target_snils`, in any formatting.
    pub fn new(target_snils: &'a str) -> (r: Self)
        ensures
            r.target_snils == target_snils,
    {
        AdmissionAnalyzer { target_snils }
    }

    /// The whole analysis of the lists: the popularity ranking, one
    /// admission pass over every offering, and where the target stands.
    pub fn analyze_all_programs(&self, all_program_records: &Vec<(String, Vec<StudentRecord>)>) -> (r:
        AdmissionAnalysis)
        ensures
            popularity_ranking(r.program_popularities@, flat(all_program_records@)),
            exists|lists: Seq<Seq<Seq<char>>>|
                {
                    &&& admission_lists(
                        lists,
                        flat(all_program_records@),
                        canon(self.target_snils@),
                    )
                    &&& results_are(
                        r.final_admission_results@,
                        offerings_of(flat(all_program_records@)),
                        lists,
                    )
                    &&& outcomes_are(
                        r.target_outcomes@,
                        offerings_of(flat(all_program_records@)),
                        lists,
                        flat(all_program_records@),
                        canon(self.target_snils@),
                    )
                },
            r.target_applicant_found == found_in(
                flat(all_program_records@),
                canon(self.target_snils@),
            ),
            r.target_applicant_results@.map_values(|p: (String, bool)| pair_view(p))
                == target_results_of(
                flat(all_program_records@),
                r.final_admission_results@,
                canon(self.target_snils@),
            ),
    {
        let entries = flatten_records(all_program_records);
        let program_popularities = calculate_all_program_popularities(&entries);
        let offers = collect_offerings(&entries);
        let applicants = prepare_eager_applicants(&entries);
        let queue = sort_for_seating(applicants);
        let target = normalize_snils(self.target_snils);
        let prior: Vec<(String, String)> = Vec::new();
        let lists = simulate_admission(&offers, &queue, &prior, &target);
        let ghost lv = lists.deep_view();
        proof {
            lemma_capacity_respected(offers@, queue@, prior@, target@);
            assert(prior@ == Seq::<(String, String)>::empty());
            assert(admission_lists(lv, entries@, target@));
        }
        let mut results: Vec<OfferingResult> = Vec::new();
        let mut outcomes: Vec<TargetOutcome> = Vec::new();
        let mut t: usize = 0;
        while t < offers.len()
            invariant
                entries@ == flat(all_program_records@),
                offers@ == offerings_of(entries@),
                lv == lists.deep_view(),
                lv.len() == offers@.len(),
                t <= offers.len(),
                results@.len() == t,
                forall|x: int|
                    0 <= x < t ==> {
                        &&& (#[trigger] results@[x]).program_name@ == offers@[x].program_name@
                        &&& results@[x].funding_source@ == offers@[x].funding_source@
                        &&& results@[x].program_key@ == offering_key(
                            offers@[x].program_name@,
                            offers@[x].funding_source@,
                        )
                        &&& results@[x].available_places == offers@[x].available_places
                        &&& results@[x].admitted.deep_view() == lv[x]
                    },
                outcomes@.len() == applied_offerings(offers@, entries@, target@, t as int).len(),
                forall|m: int|
                    0 <= m < outcomes@.len() ==> outcome_is(
                        #[trigger] outcomes@[m],
                        offers@[applied_offerings(offers@, entries@, target@, t as int)[m]],
                        lv[applied_offerings(offers@, entries@, target@, t as int)[m]],
                        records_of(
                            entries@,
                            offers@[applied_offerings(offers@, entries@, target@, t as int)[m]].program_name@,
                            offers@[applied_offerings(offers@, entries@, target@, t as int)[m]].funding_source@,
                        ),
                        target@,
                    ),
            decreases offers.len() - t,
        {
            let o = &offers[t];
            let admitted = copy_strings(&lists[t]);
            assert(admitted.deep_view() =~= lv[t as int]);
            results.push(
                OfferingResult {
                    program_name: o.program_name.clone(),
                    funding_source: o.funding_source.clone(),
                    program_key: make_offering_key(o.program_name.as_str(), o.funding_source.as_str()),
                    available_places: o.available_places,
                    admitted,
                },
            );
            let recs = offering_records(&entries, &o.program_name, &o.funding_source);
            assert(lists@[t as int].deep_view() == lv[t as int]);
            match target_outcome(o, &lists[t], &recs, &target) {
                Some(x) => {
                    outcomes.push(x);
                },
                None => {},
            }
            t = t + 1;
        }
        let (found, target_results) = self.check_target_applicant_results(&results, all_program_records);
        AdmissionAnalysis {
            program_popularities,
            final_admission_results: results,
            target_applicant_found: found,
            target_applicant_results: target_results,
            target_outcomes: outcomes,
        }
    }

    /// The records grouped by program, then by funding source, each in
    /// order of first appearance; records keep their order.
    pub fn group_by_program_and_funding_public(
        &self,
        all_program_records: Vec<(String, Vec<StudentRecord>)>,
    ) -> (r: Vec<(String, Vec<(String, Vec<StudentRecord>)>)>)
        ensures
            r@.len() == program_names(flat(all_program_records@)).len(),
            forall|p: int|
                0 <= p < r@.len() ==> {
                    let name = program_names(flat(all_program_records@))[p];
                    let fs = fundings_of(flat(all_program_records@), name);
                    &&& (#[trigger] r@[p]).0@ == name
                    &&& r@[p].1@.len() == fs.len()
                    &&& forall|f: int|
                        0 <= f < fs.len() ==> (#[trigger] r@[p].1@[f]).0@ == fs[f] && r@[p].1@[f].1@
                            == records_of(flat(all_program_records@), name, fs[f])
                },
    {
        let entries = flatten_records(&all_program_records);
        let names = collect_program_names(&entries);
        let mut grouped: Vec<(String, Vec<(String, Vec<StudentRecord>)>)> = Vec::new();
        let mut p: usize = 0;
        while p < names.len()
            invariant
                entries@ == flat(all_program_records@),
                names.deep_view() == program_names(entries@),
                p <= names.len(),
                grouped@.len() == p,
                forall|x: int|
                    0 <= x < p ==> {
                        let name = program_names(entries@)[x];
                        let fs = fundings_of(entries@, name);
                        &&& (#[trigger] grouped@[x]).0@ == name
                        &&& grouped@[x].1@.len() == fs.len()
                        &&& forall|f: int|
                            0 <= f < fs.len() ==> (#[trigger] grouped@[x].1@[f]).0@ == fs[f]
                                && grouped@[x].1@[f].1@ == records_of(entries@, name, fs[f])
                    },
            decreases names.len() - p,
        {
            let name = &names[p];
            assert(names.deep_view()[p as int] == name@);
            let fundings = collect_fundings(&entries, name);
            let mut groups: Vec<(String, Vec<StudentRecord>)> = Vec::new();
            let mut f: usize = 0;
            while f < fundings.len()
                invariant
                    fundings.deep_view() == fundings_of(entries@, name@),
                    f <= fundings.len(),
                    groups@.len() == f,
                    forall|y: int|
                        0 <= y < f ==> (#[trigger] groups@[y]).0@ == fundings_of(entries@, name@)[y]
                            && groups@[y].1@ == records_of(
                            entries@,
                            name@,
                            fundings_of(entries@, name@)[y],
                        ),
                decreases fundings.len() - f,
            {
                assert(fundings.deep_view()[f as int] == fundings@[f as int]@);
                let recs = offering_records(&entries, name, &fundings[f]);
                groups.push((fundings[f].clone(), recs));
                f = f + 1;
            }
            grouped.push((name.clone(), groups));
            p = p + 1;
        }
        grouped
    }

    /// Whether the target has a record anywhere, and for each of its
    /// records the offering key and whether it is admitted there.
    pub fn check_target_applicant_results(
        &self,
        final_admission_results: &Vec<OfferingResult>,
        all_program_records: &Vec<(String, Vec<StudentRecord>)>,
    ) -> (r: (bool, Vec<(String, bool)>))
        ensures
            r.0 == found_in(flat(all_program_records@), canon(self.target_snils@)),
            r.1@.map_values(|p: (String, bool)| pair_view(p)) == target_results_of(
                flat(all_program_records@),
                final_admission_results@,
                canon(self.target_snils@),
            ),
    {
        let entries = flatten_records(all_program_records);
        let target = normalize_snils(self.target_snils);
        let mut found = false;
        let mut out: Vec<(String, bool)> = Vec::new();
        let mut i: usize = 0;
        while i < entries.len()
            invariant
                entries@ == flat(all_program_records@),
                target@ == canon(self.target_snils@),
                i <= entries.len(),
                found == found_in(entries@.take(i as int), target@),
                out@.map_values(|p: (String, bool)| pair_view(p)) == target_results_of(
                    entries@.take(i as int),
                    final_admission_results@,
                    target@,
                ),
            decreases entries.len() - i,
        {
            let ghost prefix = entries@.take(i as int);
            let ghost next = entries@.take(i + 1);
            assert(next.drop_last() == prefix);
            let e = &entries[i];
            if e.1.get_normalized_snils() == target {
                let key = make_offering_key(e.0.as_str(), e.1.funding_source.as_str());
                let admitted = is_admitted_to(
                    final_admission_results,
                    &e.0,
                    &e.1.funding_source,
                    &target,
                );
                let ghost before = out@;
                out.push((key, admitted));
                assert(out@.map_values(|p: (String, bool)| pair_view(p)) =~= before.map_values(
                    |p: (String, bool)| pair_view(p),
                ).push(pair_view((key, admitted))));
                found = true;
                assert(next[i as int] == entries@[i as int]);
            } else {
                assert forall|x: int| 0 <= x < next.len() && key_of((#[trigger] next[x]).1) == target@
                    implies 0 <= x < prefix.len() by {
                    if x == i {
                        assert(next[x] == entries@[i as int]);
                    }
                }
                assert forall|x: int| 0 <= x < prefix.len() implies #[trigger] prefix[x] == next[x] by {}
            }
            i = i + 1;
        }
        assert(entries@.take(entries.len() as int) == entries@);
        (found, out)
    }
}

proof fn lemma_applications_carry_key(entries: Seq<(String, StudentRecord)>, k: Seq<char>)
    ensures
        forall|j: int|
            0 <= j < applications_of(entries, k).len() ==> canon(
                (#[trigger] applications_of(entries, k)[j]).snils@,
            ) == k,
    decreases entries.len(),
{
    if entries.len() > 0 {
        let prev = applications_of(entries.drop_last(), k);
        lemma_applications_carry_key(entries.drop_last(), k);
        let all = applications_of(entries, k);
        assert forall|j: int| 0 <= j < all.len() implies canon((#[trigger] all[j]).snils@) == k by {
            if j < prev.len() {
                assert(all[j] == prev[j]);
            }
        }
    }
}

/// The queue built from any applicants of `entries` is consistent: each
/// application carries its applicant's identifier.
pub proof fn lemma_queue_consistent(q: Seq<EagerApplicant>, entries: Seq<(String, StudentRecord)>)
    requires
        applicants_of(q, entries),
    ensures
        queue_consistent(sort_by(q, by_seating())),
{
    let sq = sort_by(q, by_seating());
    assert forall|a: int, j: int|
        0 <= a < sq.len() && 0 <= j < sq[a].applications@.len() implies canon(
        (#[trigger] sq[a].applications@[j]).snils@,
    ) == sq[a].snils@ by {
        let x = sq[a];
        assert(sq.contains(x));
        lemma_sort_by_contains(q, by_seating(), x);
        let t = choose|t: int| 0 <= t < q.len() && q[t] == x;
        let k = applicant_keys(entries)[t];
        let apps = applications_of(entries, k);
        assert(applicant_is(q[t], k, apps));
        let app = x.applications@[j];
        assert(x.applications@.contains(app));
        lemma_sort_by_contains(apps, by_priority(), app);
        let m = choose|m: int| 0 <= m < apps.len() && apps[m] == app;
        lemma_applications_carry_key(entries, k);
        assert(canon(apps[m].snils@) == k);
    }
}

/// The lists of an analysis respect every offering's seats, and no
/// canonical identifier is admitted twice.
pub proof fn lemma_analysis_invariants(
    lists: Seq<Seq<Seq<char>>>,
    entries: Seq<(String, StudentRecord)>,
    target: Seq<char>,
)
    requires
        admission_lists(lists, entries, target),
    ensures
        lists.len() == offerings_of(entries).len(),
        forall|o: int|
            0 <= o < lists.len() ==> #[trigger] lists[o].len() <= offerings_of(
                entries,
            )[o].available_places,
        seats_distinct(lists),
{
    let q = choose|q: Seq<EagerApplicant>|
        applicants_of(q, entries) && lists == seat_all(
            offerings_of(entries),
            sort_by(q, by_seating()),
            Seq::empty(),
            target,
        ).0;
    let queue = sort_by(q, by_seating());
    lemma_capacity_respected(offerings_of(entries), queue, Seq::empty(), target);
    lemma_queue_consistent(q, entries);
    lemma_single_assignment(offerings_of(entries), queue, Seq::empty(), target);
}

} // verus!
