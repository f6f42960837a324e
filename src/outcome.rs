//! What a finished admission pass means for one applicant: cutoff scores,
//! the applicant's place in a list, and a status per offering.
use vstd::prelude::*;
use crate::dedup::{by_rank, sort_records_by_rank};
use crate::models::{key_of, score_or_zero, score_value, StudentRecord};
use crate::order::{lemma_sort_by_contains, sort_by};
use crate::popularity::Offering;
use crate::text::{canon, normalize_snils};

verus! {

/// The status of the target applicant on one offering.
#[derive(Debug, Clone, Copy, PartialEq, Eq, Structural)]
pub enum AdmissionStatus {
    /// In the offering's admitted list.
    Admitted,
    /// Not in the list, though its score is above the offering's positive
    /// cutoff: the order of priorities kept it out, not its merit.
    AdmittedByScoreNotByPriority,
    NotAdmitted,
}

/// The target applicant's standing on one offering that it applied to.
#[derive(Debug, Clone)]
pub struct TargetOutcome {
    pub program_name: String,
    pub funding_source: String,
    pub available_places: u32,
    /// 1-based place in the admitted list, if there.
    pub position: Option<usize>,
    pub admitted_count: usize,
    pub cutoff_score: Option<u64>,
    /// The score of the target's record, zero where it does not parse.
    pub target_score: u64,
    pub target_priority: u32,
    pub status: AdmissionStatus,
}

/// The lower of two optional scores; a missing one does not count.
pub open spec fn min_opt(a: Option<u64>, b: Option<u64>) -> Option<u64> {
    match (a, b) {
        (Some(x), Some(y)) => Some(if x <= y { x } else { y }),
        (Some(x), None) => Some(x),
        (None, _) => b,
    }
}

/// The lowest parsed score among the records of the applicant `k`.
pub open spec fn lowest_score_of(records: Seq<StudentRecord>, k: Seq<char>) -> Option<u64>
    decreases records.len(),
{
    if records.len() == 0 {
        None
    } else {
        let prev = lowest_score_of(records.drop_last(), k);
        if key_of(records.last()) == k {
            min_opt(prev, score_value(records.last()))
        } else {
            prev
        }
    }
}

/// The cutoff score of an admitted list: the lowest parsed score among the
/// records of the admitted applicants; none where no such score parses.
pub open spec fn cutoff_of(admitted: Seq<Seq<char>>, records: Seq<StudentRecord>) -> Option<u64>
    decreases admitted.len(),
{
    if admitted.len() == 0 {
        None
    } else {
        min_opt(
            cutoff_of(admitted.drop_last(), records),
            lowest_score_of(records, canon(admitted.last())),
        )
    }
}

/// Whether `p` is the first place in `admitted` of the applicant `k`.
pub open spec fn first_place(admitted: Seq<Seq<char>>, k: Seq<char>, p: int) -> bool {
    0 <= p < admitted.len() && canon(admitted[p]) == k && forall|u: int|
        0 <= u < p ==> canon(#[trigger] admitted[u]) != k
}

/// Whether the applicant `k` is in `admitted`.
pub open spec fn listed(admitted: Seq<Seq<char>>, k: Seq<char>) -> bool {
    exists|p: int| 0 <= p < admitted.len() && canon(#[trigger] admitted[p]) == k
}

/// The status rule: in the list, admitted; else above a positive cutoff,
/// kept out by priority; else not admitted.
pub open spec fn status_of(in_list: bool, target_score: nat, cutoff: Option<u64>) -> AdmissionStatus {
    if in_list {
        AdmissionStatus::Admitted
    } else {
        match cutoff {
            Some(c) => if c > 0 && target_score > c {
                AdmissionStatus::AdmittedByScoreNotByPriority
            } else {
                AdmissionStatus::NotAdmitted
            },
            None => AdmissionStatus::NotAdmitted,
        }
    }
}

/// The first place of `k` among `records`.
pub open spec fn first_record(records: Seq<StudentRecord>, k: Seq<char>, p: int) -> bool {
    0 <= p < records.len() && key_of(records[p]) == k && forall|u: int|
        0 <= u < p ==> key_of(#[trigger] records[u]) != k
}

/// Whether the applicant `k` has a record among `records`.
pub open spec fn applied(records: Seq<StudentRecord>, k: Seq<char>) -> bool {
    exists|p: int| 0 <= p < records.len() && key_of(#[trigger] records[p]) == k
}

/// Whether `r` is the standing of the applicant `k` on `offer`, whose
/// records are `records` and whose admitted list is `admitted`: built from
/// its first record in order of rank.
pub open spec fn outcome_is(
    r: TargetOutcome,
    offer: Offering,
    admitted: Seq<Seq<char>>,
    records: Seq<StudentRecord>,
    k: Seq<char>,
) -> bool {
    let ranked = sort_by(records, by_rank());
    let cutoff = cutoff_of(admitted, records);
    &&& r.program_name@ == offer.program_name@
    &&& r.funding_source@ == offer.funding_source@
    &&& r.available_places == offer.available_places
    &&& r.admitted_count == admitted.len()
    &&& r.cutoff_score == cutoff
    &&& (r.position is Some <==> listed(admitted, k))
    &&& (r.position is Some ==> first_place(admitted, k, r.position->0 - 1))
    &&& exists|p: int|
        first_record(ranked, k, p) && r.target_score == score_or_zero(ranked[p]) && r.target_priority
            == ranked[p].priority
    &&& r.status == status_of(listed(admitted, k), r.target_score as nat, cutoff)
}

/// The lower of two optional scores; a missing one does not count.
pub fn min_option(a: Option<u64>, b: Option<u64>) -> (r: Option<u64>)
    ensures
        r == min_opt(a, b),
{
    match (a, b) {
        (Some(x), Some(y)) => Some(if x <= y { x } else { y }),
        (Some(x), None) => Some(x),
        (None, _) => b,
    }
}

/// The lowest parsed score among the records of the applicant `k`.
pub fn lowest_score(records: &Vec<StudentRecord>, k: &String) -> (r: Option<u64>)
    ensures
        r == lowest_score_of(records@, k@),
{
    let mut low: Option<u64> = None;
    let mut i: usize = 0;
    while i < records.len()
        invariant
            i <= records.len(),
            low == lowest_score_of(records@.take(i as int), k@),
        decreases records.len() - i,
    {
        assert(records@.take(i + 1).drop_last() == records@.take(i as int));
        if records[i].get_normalized_snils() == *k {
            low = min_option(low, records[i].get_numeric_score());
        }
        i = i + 1;
    }
    assert(records@.take(records.len() as int) == records@);
    low
}

/// The cutoff score of an admitted list given the offering's records.
pub fn cutoff_score(admitted: &Vec<String>, records: &Vec<StudentRecord>) -> (r: Option<u64>)
    ensures
        r == cutoff_of(admitted.deep_view(), records@),
{
    let mut cut: Option<u64> = None;
    let mut i: usize = 0;
    while i < admitted.len()
        invariant
            i <= admitted.len(),
            cut == cutoff_of(admitted.deep_view().take(i as int), records@),
        decreases admitted.len() - i,
    {
        assert(admitted.deep_view().take(i + 1).drop_last() == admitted.deep_view().take(i as int));
        assert(admitted.deep_view()[i as int] == admitted@[i as int]@);
        let k = normalize_snils(admitted[i].as_str());
        cut = min_option(cut, lowest_score(records, &k));
        i = i + 1;
    }
    assert(admitted.deep_view().take(admitted.len() as int) == admitted.deep_view());
    cut
}

/// The 1-based place of the applicant `k` in `admitted`, if there.
pub fn position_in_list(admitted: &Vec<String>, k: &String) -> (r: Option<usize>)
    ensures
        r is Some <==> listed(admitted.deep_view(), k@),
        r is Some ==> first_place(admitted.deep_view(), k@, r->0 - 1),
{
    let mut p: usize = 0;
    while p < admitted.len()
        invariant
            p <= admitted.len(),
            forall|u: int| 0 <= u < p ==> canon(#[trigger] admitted.deep_view()[u]) != k@,
        decreases admitted.len() - p,
    {
        assert(admitted.deep_view()[p as int] == admitted@[p as int]@);
        if normalize_snils(admitted[p].as_str()) == *k {
            return Some(p + 1);
        }
        p = p + 1;
    }
    None
}

/// The status of the target on one offering.
pub fn classify(in_list: bool, target_score: u64, cutoff: Option<u64>) -> (r: AdmissionStatus)
    ensures
        r == status_of(in_list, target_score as nat, cutoff),
{
    if in_list {
        AdmissionStatus::Admitted
    } else {
        match cutoff {
            Some(c) => if c > 0 && target_score > c {
                AdmissionStatus::AdmittedByScoreNotByPriority
            } else {
                AdmissionStatus::NotAdmitted
            },
            None => AdmissionStatus::NotAdmitted,
        }
    }
}

/// Whether the applicant `k` has a record among `records`.
pub fn has_record(records: &Vec<StudentRecord>, k: &String) -> (r: bool)
    ensures
        r == applied(records@, k@),
{
    let mut p: usize = 0;
    while p < records.len()
        invariant
            p <= records.len(),
            forall|u: int| 0 <= u < p ==> key_of(#[trigger] records@[u]) != k@,
        decreases records.len() - p,
    {
        if records[p].get_normalized_snils() == *k {
            return true;
        }
        p = p + 1;
    }
    false
}

/// The standing of the applicant `k` (canonical) on one offering; `None`
/// where it has no record there.
pub fn target_outcome(
    offer: &Offering,
    admitted: &Vec<String>,
    records: &Vec<StudentRecord>,
    k: &String,
) -> (r: Option<TargetOutcome>)
    ensures
        r is None <==> !applied(records@, k@),
        r is Some ==> outcome_is(r->0, *offer, admitted.deep_view(), records@, k@),
{
    let mut copy: Vec<StudentRecord> = Vec::new();
    let mut i: usize = 0;
    while i < records.len()
        invariant
            i <= records.len(),
            copy@ == records@.take(i as int),
        decreases records.len() - i,
    {
        copy.push(records[i].duplicate());
        assert(copy@ =~= records@.take(i + 1));
        i = i + 1;
    }
    assert(records@.take(records.len() as int) == records@);
    let ranked = sort_records_by_rank(copy);
    let mut p: usize = 0;
    while p < ranked.len()
        invariant
            p <= ranked.len(),
            forall|u: int| 0 <= u < p ==> key_of(#[trigger] ranked@[u]) != k@,
        ensures
            p <= ranked.len(),
            forall|u: int| 0 <= u < p ==> key_of(#[trigger] ranked@[u]) != k@,
            p < ranked.len() ==> key_of(ranked@[p as int]) == k@,
        decreases ranked.len() - p,
    {
        if ranked[p].get_normalized_snils() == *k {
            break;
        }
        p = p + 1;
    }
    proof {
        if applied(records@, k@) {
            let w = choose|w: int| 0 <= w < records@.len() && key_of(#[trigger] records@[w]) == k@;
            assert(records@.contains(records@[w]));
            lemma_sort_by_contains(records@, by_rank(), records@[w]);
            assert(ranked@.contains(records@[w]));
        }
        if p < ranked.len() {
            assert(ranked@.contains(ranked@[p as int]));
            lemma_sort_by_contains(records@, by_rank(), ranked@[p as int]);
            assert(records@.contains(ranked@[p as int]));
        }
    }
    if p == ranked.len() {
        return None;
    }
    let rec = &ranked[p];
    let score = match rec.get_numeric_score() {
        Some(v) => v,
        None => 0,
    };
    let position = position_in_list(admitted, k);
    let cutoff = cutoff_score(admitted, records);
    let status = classify(position.is_some(), score, cutoff);
    assert(first_record(ranked@, k@, p as int));
    Some(
        TargetOutcome {
            program_name: offer.program_name.clone(),
            funding_source: offer.funding_source.clone(),
            available_places: offer.available_places,
            position,
            admitted_count: admitted.len(),
            cutoff_score: cutoff,
            target_score: score,
            target_priority: rec.priority,
            status,
        },
    )
}

} // verus!
