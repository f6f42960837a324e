//! Each applicant's eager applications across all programs, in order of
//! preference, and the order in which applicants are seated.
use vstd::prelude::*;
use crate::models::{consent_given, document_given, eager, key_of, score_or_zero, StudentRecord};
use crate::order::{insert_by, lemma_insert_at, sort_by};
use crate::ratio::{avg_less, avg_lt};

verus! {

/// One eager application of one applicant.
#[derive(Debug, Clone)]
pub struct ApplicantApplication {
    pub snils: String,
    pub program_name: String,
    pub funding_source: String,
    pub priority: u32,
    pub rank: u32,
    /// The parsed score in score units, zero where it does not parse.
    pub average_score: u64,
    pub has_consent: bool,
    pub has_original_document: bool,
}

/// An applicant with at least one eager application. The average rank is
/// `rank_sum / applications.len()`, the average score
/// `score_sum / applications.len()`.
#[derive(Debug, Clone)]
pub struct EagerApplicant {
    /// The canonical identifier.
    pub snils: String,
    /// Ordered by priority; equal priorities keep the order of the lists.
    pub applications: Vec<ApplicantApplication>,
    pub rank_sum: u128,
    pub score_sum: u128,
}

/// The application that one record of a program's list makes.
pub open spec fn application_of(e: (String, StudentRecord)) -> ApplicantApplication {
    ApplicantApplication {
        snils: e.1.snils,
        program_name: e.0,
        funding_source: e.1.funding_source,
        priority: e.1.priority,
        rank: e.1.rank,
        average_score: score_or_zero(e.1) as u64,
        has_consent: consent_given(e.1),
        has_original_document: document_given(e.1),
    }
}

/// The canonical identifiers of applicants with an eager record, in order
/// of first appearance.
pub open spec fn applicant_keys(entries: Seq<(String, StudentRecord)>) -> Seq<Seq<char>>
    decreases entries.len(),
{
    if entries.len() == 0 {
        Seq::empty()
    } else {
        let prev = applicant_keys(entries.drop_last());
        let e = entries.last();
        if eager(e.1) && !prev.contains(key_of(e.1)) {
            prev.push(key_of(e.1))
        } else {
            prev
        }
    }
}

/// The eager applications of the applicant `k`, in the order of the lists.
pub open spec fn applications_of(entries: Seq<(String, StudentRecord)>, k: Seq<char>) -> Seq<
    ApplicantApplication,
>
    decreases entries.len(),
{
    if entries.len() == 0 {
        Seq::empty()
    } else {
        let prev = applications_of(entries.drop_last(), k);
        let e = entries.last();
        if eager(e.1) && key_of(e.1) == k {
            prev.push(application_of(e))
        } else {
            prev
        }
    }
}

/// Priority order: the lower priority number first.
pub open spec fn by_priority() -> spec_fn(ApplicantApplication, ApplicantApplication) -> bool {
    |a: ApplicantApplication, b: ApplicantApplication| a.priority < b.priority
}

/// Sum of the ranks.
pub open spec fn rank_total(s: Seq<ApplicantApplication>) -> nat
    decreases s.len(),
{
    if s.len() == 0 {
        0
    } else {
        rank_total(s.drop_last()) + s.last().rank as nat
    }
}

/// Sum of the scores, in score units.
pub open spec fn score_total(s: Seq<ApplicantApplication>) -> nat
    decreases s.len(),
{
    if s.len() == 0 {
        0
    } else {
        score_total(s.drop_last()) + s.last().average_score as nat
    }
}

/// Whether `a` is the applicant `k` with the applications `apps`.
pub open spec fn applicant_is(a: EagerApplicant, k: Seq<char>, apps: Seq<ApplicantApplication>) -> bool {
    &&& a.snils@ == k
    &&& a.applications@ == sort_by(apps, by_priority())
    &&& a.rank_sum == rank_total(apps)
    &&& a.score_sum == score_total(apps)
}

/// Whether `a` is seated before `b`: the higher average score first, then
/// the lower average rank.
pub open spec fn seated_before(a: EagerApplicant, b: EagerApplicant) -> bool {
    let na = a.applications@.len() as int;
    let nb = b.applications@.len() as int;
    avg_lt(b.score_sum as int, nb, a.score_sum as int, na) || (!avg_lt(
        a.score_sum as int,
        na,
        b.score_sum as int,
        nb,
    ) && avg_lt(a.rank_sum as int, na, b.rank_sum as int, nb))
}

/// Seating order as a relation.
pub open spec fn by_seating() -> spec_fn(EagerApplicant, EagerApplicant) -> bool {
    |a: EagerApplicant, b: EagerApplicant| seated_before(a, b)
}

/// Whether `q` holds the applicants of `entries`, in order of first appearance.
pub open spec fn applicants_of(q: Seq<EagerApplicant>, entries: Seq<(String, StudentRecord)>) -> bool {
    &&& q.len() == applicant_keys(entries).len()
    &&& forall|t: int|
        0 <= t < q.len() ==> applicant_is(
            #[trigger] q[t],
            applicant_keys(entries)[t],
            applications_of(entries, applicant_keys(entries)[t]),
        )
}

/// The application that one record makes.
pub fn application_from(e: &(String, StudentRecord)) -> (r: ApplicantApplication)
    ensures
        r == application_of(*e),
{
    let score = match e.1.get_numeric_score() {
        Some(v) => v,
        None => 0,
    };
    ApplicantApplication {
        snils: e.1.snils.clone(),
        program_name: e.0.clone(),
        funding_source: e.1.funding_source.clone(),
        priority: e.1.priority,
        rank: e.1.rank,
        average_score: score,
        has_consent: e.1.has_consent(),
        has_original_document: e.1.has_original_document(),
    }
}

fn contains_key(keys: &Vec<String>, k: &String) -> (r: bool)
    ensures
        r == keys.deep_view().contains(k@),
{
    let mut t: usize = 0;
    while t < keys.len()
        invariant
            t <= keys.len(),
            forall|u: int| 0 <= u < t ==> keys.deep_view()[u] != k@,
        decreases keys.len() - t,
    {
        if keys[t] == *k {
            assert(keys.deep_view()[t as int] == k@);
            return true;
        }
        t = t + 1;
    }
    false
}

/// The canonical identifiers of applicants with an eager record.
pub fn collect_applicant_keys(entries: &Vec<(String, StudentRecord)>) -> (r: Vec<String>)
    ensures
        r.deep_view() == applicant_keys(entries@),
{
    let mut keys: Vec<String> = Vec::new();
    let mut i: usize = 0;
    while i < entries.len()
        invariant
            i <= entries.len(),
            keys.deep_view() == applicant_keys(entries@.take(i as int)),
        decreases entries.len() - i,
    {
        assert(entries@.take(i + 1).drop_last() == entries@.take(i as int));
        if entries[i].1.is_eager() {
            let k = entries[i].1.get_normalized_snils();
            if !contains_key(&keys, &k) {
                let ghost old_keys = keys@;
                let ghost old_view = keys.deep_view();
                keys.push(k);
                proof {
                    assert forall|j: int| 0 <= j < keys.len() implies keys.deep_view()[j]
                        == old_view.push(k@)[j] by {
                        if j < keys.len() - 1 {
                            assert(keys@[j] == old_keys[j]);
                        }
                    }
                    assert(keys.deep_view() =~= old_view.push(k@));
                }
            }
        }
        i = i + 1;
    }
    assert(entries@.take(entries.len() as int) == entries@);
    keys
}

/// The eager applications of the applicant `k`, in the order of the lists.
pub fn collect_applications(entries: &Vec<(String, StudentRecord)>, k: &String) -> (r: Vec<
    ApplicantApplication,
>)
    ensures
        r@ == applications_of(entries@, k@),
{
    let mut out: Vec<ApplicantApplication> = Vec::new();
    let mut i: usize = 0;
    while i < entries.len()
        invariant
            i <= entries.len(),
            out@ == applications_of(entries@.take(i as int), k@),
        decreases entries.len() - i,
    {
        assert(entries@.take(i + 1).drop_last() == entries@.take(i as int));
        if entries[i].1.is_eager() {
            let key = entries[i].1.get_normalized_snils();
            if key == *k {
                out.push(application_from(&entries[i]));
            }
        }
        i = i + 1;
    }
    assert(entries@.take(entries.len() as int) == entries@);
    out
}

fn insert_by_priority(out: &mut Vec<ApplicantApplication>, x: ApplicantApplication)
    ensures
        final(out)@ == insert_by(old(out)@, x, by_priority()),
{
    let mut p = out.len();
    while p > 0 && x.priority < out[p - 1].priority
        invariant
            p <= out.len(),
            out@ == old(out)@,
            forall|j: int| p <= j < out.len() ==> (by_priority())(x, #[trigger] out@[j]),
        decreases p,
    {
        p = p - 1;
    }
    proof {
        lemma_insert_at(out@, x, by_priority(), p as int);
    }
    out.insert(p, x);
}

/// Gathers one applicant: applications by priority, and the rank and
/// score totals.
pub fn build_applicant(k: String, apps: Vec<ApplicantApplication>) -> (r: EagerApplicant)
    ensures
        applicant_is(r, k@, apps@),
{
    let mut sorted: Vec<ApplicantApplication> = Vec::new();
    let mut rank_sum: u128 = 0;
    let mut score_sum: u128 = 0;
    let mut i: usize = 0;
    while i < apps.len()
        invariant
            i <= apps.len(),
            sorted@ == sort_by(apps@.take(i as int), by_priority()),
            rank_sum == rank_total(apps@.take(i as int)),
            rank_sum <= i * u32::MAX,
            score_sum == score_total(apps@.take(i as int)),
            score_sum <= i * u64::MAX,
        decreases apps.len() - i,
    {
        assert(apps@.take(i + 1).drop_last() == apps@.take(i as int));
        rank_sum = rank_sum + apps[i].rank as u128;
        score_sum = score_sum + apps[i].average_score as u128;
        insert_by_priority(&mut sorted, apps[i].clone_application());
        i = i + 1;
    }
    assert(apps@.take(apps.len() as int) == apps@);
    EagerApplicant { snils: k, applications: sorted, rank_sum, score_sum }
}

impl ApplicantApplication {
    /// A field-by-field copy.
    pub fn clone_application(&self) -> (r: ApplicantApplication)
        ensures
            r == *self,
    {
        ApplicantApplication {
            snils: self.snils.clone(),
            program_name: self.program_name.clone(),
            funding_source: self.funding_source.clone(),
            priority: self.priority,
            rank: self.rank,
            average_score: self.average_score,
            has_consent: self.has_consent,
            has_original_document: self.has_original_document,
        }
    }
}

/// Every applicant with an eager record anywhere, in order of first
/// appearance, with their eager applications.
pub fn prepare_eager_applicants(entries: &Vec<(String, StudentRecord)>) -> (r: Vec<EagerApplicant>)
    ensures
        applicants_of(r@, entries@),
{
    let keys = collect_applicant_keys(entries);
    let mut out: Vec<EagerApplicant> = Vec::new();
    let mut t: usize = 0;
    while t < keys.len()
        invariant
            keys.deep_view() == applicant_keys(entries@),
            t <= keys.len(),
            out@.len() == t,
            forall|v: int|
                0 <= v < t ==> applicant_is(
                    #[trigger] out@[v],
                    applicant_keys(entries@)[v],
                    applications_of(entries@, applicant_keys(entries@)[v]),
                ),
        decreases keys.len() - t,
    {
        let apps = collect_applications(entries, &keys[t]);
        let a = build_applicant(keys[t].clone(), apps);
        out.push(a);
        t = t + 1;
    }
    out
}

/// Whether `a` is seated before `b`.
pub fn seats_before(a: &EagerApplicant, b: &EagerApplicant) -> (r: bool)
    ensures
        r == seated_before(*a, *b),
{
    let na = a.applications.len() as u64;
    let nb = b.applications.len() as u64;
    avg_less(b.score_sum, nb, a.score_sum, na) || (!avg_less(a.score_sum, na, b.score_sum, nb)
        && avg_less(a.rank_sum, na, b.rank_sum, nb))
}

fn insert_by_seating(out: &mut Vec<EagerApplicant>, x: EagerApplicant)
    ensures
        final(out)@ == insert_by(old(out)@, x, by_seating()),
{
    let mut p = out.len();
    while p > 0 && seats_before(&x, &out[p - 1])
        invariant
            p <= out.len(),
            out@ == old(out)@,
            forall|j: int| p <= j < out.len() ==> (by_seating())(x, #[trigger] out@[j]),
        decreases p,
    {
        p = p - 1;
    }
    proof {
        lemma_insert_at(out@, x, by_seating(), p as int);
    }
    out.insert(p, x);
}

/// The admission queue: the higher average score first, then the lower
/// average rank; applicants equal on both keep their order.
pub fn sort_for_seating(applicants: Vec<EagerApplicant>) -> (r: Vec<EagerApplicant>)
    ensures
        r@ == sort_by(applicants@, by_seating()),
{
    let mut out: Vec<EagerApplicant> = Vec::new();
    let mut rest = applicants;
    let ghost all = rest@;
    let n = rest.len();
    let mut taken: usize = 0;
    while rest.len() > 0
        invariant
            taken + rest@.len() == all.len(),
            all.len() == n,
            rest@ == all.subrange(taken as int, all.len() as int),
            out@ == sort_by(all.take(taken as int), by_seating()),
        decreases rest@.len(),
    {
        let x = rest.remove(0);
        assert(all.take(taken + 1).drop_last() == all.take(taken as int));
        assert(x == all[taken as int]);
        insert_by_seating(&mut out, x);
        taken = taken + 1;
        assert(rest@ =~= all.subrange(taken as int, all.len() as int));
    }
    assert(all.take(all.len() as int) == all);
    out
}

} // verus!
