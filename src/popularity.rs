//! Offerings (a program with one funding source) and how sought-after each is.
use vstd::prelude::*;
use vstd::string::*;
use crate::dedup::{by_rank, sort_records_by_rank};
use crate::models::{eager, score_value, StudentRecord};
use crate::order::{insert_by, lemma_insert_at, sort_by};
use crate::ratio::{avg_less, avg_lt};

verus! {

/// One program with one funding source, and its number of seats.
#[derive(Debug, Clone)]
pub struct Offering {
    pub program_name: String,
    pub funding_source: String,
    pub available_places: u32,
}

/// How sought-after one offering is. Averages are held as a sum and a count:
/// the average priority of the top candidates is
/// `top_priority_sum / top_count`, the average score is
/// `score_sum / score_count` (in score units), and either is zero over nothing.
#[derive(Debug, Clone)]
pub struct ProgramPopularity {
    pub program_name: String,
    pub program_key: String,
    pub funding_source: String,
    pub top_priority_sum: u128,
    pub top_count: u64,
    pub score_sum: u128,
    pub score_count: u64,
    pub available_places: u32,
    pub total_eager_applicants: usize,
    pub eager_applicants: Vec<StudentRecord>,
}

/// Every record of every list, each with the name of its program.
pub open spec fn flat(all: Seq<(String, Vec<StudentRecord>)>) -> Seq<(String, StudentRecord)>
    decreases all.len(),
{
    if all.len() == 0 {
        Seq::empty()
    } else {
        flat(all.drop_last()) + all.last().1@.map_values(
            |r: StudentRecord| (all.last().0, r),
        )
    }
}

/// Whether the offering has these names.
pub open spec fn offering_is(o: Offering, name: Seq<char>, funding: Seq<char>) -> bool {
    o.program_name@ == name && o.funding_source@ == funding
}

/// Whether `t` is the first offering of `offers` with these names.
pub open spec fn first_offering_at(
    offers: Seq<Offering>,
    name: Seq<char>,
    funding: Seq<char>,
    t: int,
) -> bool {
    0 <= t < offers.len() && offering_is(offers[t], name, funding) && forall|u: int|
        0 <= u < t ==> !offering_is(#[trigger] offers[u], name, funding)
}

/// The first offering of `offers` with these names, if any.
pub open spec fn offering_index(offers: Seq<Offering>, name: Seq<char>, funding: Seq<char>) -> Option<
    int,
> {
    if exists|t: int| first_offering_at(offers, name, funding, t) {
        Some(choose|t: int| first_offering_at(offers, name, funding, t))
    } else {
        None
    }
}

/// Whether some offering of `offers` has these names.
pub open spec fn offering_known(offers: Seq<Offering>, name: Seq<char>, funding: Seq<char>) -> bool {
    exists|t: int| 0 <= t < offers.len() && offering_is(#[trigger] offers[t], name, funding)
}

/// The offering that a record of a program's list belongs to.
pub open spec fn offering_of_entry(e: (String, StudentRecord)) -> Offering {
    Offering {
        program_name: e.0,
        funding_source: e.1.funding_source,
        available_places: e.1.available_places,
    }
}

/// The offerings in order of first appearance; the seats are those given
/// by the first record of each.
pub open spec fn offerings_of(entries: Seq<(String, StudentRecord)>) -> Seq<Offering>
    decreases entries.len(),
{
    if entries.len() == 0 {
        Seq::empty()
    } else {
        let prev = offerings_of(entries.drop_last());
        let e = entries.last();
        if offering_known(prev, e.0@, e.1.funding_source@) {
            prev
        } else {
            prev.push(offering_of_entry(e))
        }
    }
}

/// The records that belong to one offering, in order.
pub open spec fn records_of(entries: Seq<(String, StudentRecord)>, name: Seq<char>, funding: Seq<char>) -> Seq<
    StudentRecord,
>
    decreases entries.len(),
{
    if entries.len() == 0 {
        Seq::empty()
    } else {
        let prev = records_of(entries.drop_last(), name, funding);
        let e = entries.last();
        if e.0@ == name && e.1.funding_source@ == funding {
            prev.push(e.1)
        } else {
            prev
        }
    }
}

/// The eager records among `s`, in order.
pub open spec fn eager_only(s: Seq<StudentRecord>) -> Seq<StudentRecord>
    decreases s.len(),
{
    if s.len() == 0 {
        s
    } else if eager(s.last()) {
        eager_only(s.drop_last()).push(s.last())
    } else {
        eager_only(s.drop_last())
    }
}

/// Sum of the priorities.
pub open spec fn priority_sum(s: Seq<StudentRecord>) -> nat
    decreases s.len(),
{
    if s.len() == 0 {
        0
    } else {
        priority_sum(s.drop_last()) + s.last().priority as nat
    }
}

/// Sum of the scores that parse.
pub open spec fn parsed_sum(s: Seq<StudentRecord>) -> nat
    decreases s.len(),
{
    if s.len() == 0 {
        0
    } else {
        parsed_sum(s.drop_last()) + match score_value(s.last()) {
            Some(v) => v as nat,
            None => 0,
        }
    }
}

/// Number of scores that parse.
pub open spec fn parsed_count(s: Seq<StudentRecord>) -> nat
    decreases s.len(),
{
    if s.len() == 0 {
        0
    } else {
        parsed_count(s.drop_last()) + if score_value(s.last()) is Some {
            1nat
        } else {
            0nat
        }
    }
}

/// Size of the top subset: twice the seats, or all eager records if fewer.
pub open spec fn top_size(places: u32, n: nat) -> nat {
    if 2 * places < n {
        (2 * places) as nat
    } else {
        n
    }
}

/// The key of an offering: program name, '_', funding source.
pub open spec fn offering_key(name: Seq<char>, funding: Seq<char>) -> Seq<char> {
    name + seq!['_'] + funding
}

/// Whether `p` is the popularity of the offering `(name, funding)` with
/// `places` seats whose records are `records`.
pub open spec fn popularity_of(
    p: ProgramPopularity,
    name: Seq<char>,
    funding: Seq<char>,
    places: u32,
    records: Seq<StudentRecord>,
) -> bool {
    let ranked = sort_by(eager_only(records), by_rank());
    let top = top_size(places, ranked.len());
    &&& p.program_name@ == name
    &&& p.funding_source@ == funding
    &&& p.program_key@ == offering_key(name, funding)
    &&& p.available_places == places
    &&& p.eager_applicants@ == ranked
    &&& p.total_eager_applicants == ranked.len()
    &&& p.top_count == top
    &&& p.top_priority_sum == priority_sum(ranked.take(top as int))
    &&& p.score_sum == parsed_sum(ranked)
    &&& p.score_count == parsed_count(ranked)
}

/// Popularity order: the lower average priority of the top candidates first.
pub open spec fn by_avg_priority() -> spec_fn(ProgramPopularity, ProgramPopularity) -> bool {
    |a: ProgramPopularity, b: ProgramPopularity|
        avg_lt(
            a.top_priority_sum as int,
            a.top_count as int,
            b.top_priority_sum as int,
            b.top_count as int,
        )
}

/// Whether the popularity list ranks the offerings of `entries`.
pub open spec fn popularity_ranking(r: Seq<ProgramPopularity>, entries: Seq<(String, StudentRecord)>) -> bool {
    exists|u: Seq<ProgramPopularity>|
        {
            &&& u.len() == offerings_of(entries).len()
            &&& forall|t: int|
                0 <= t < u.len() ==> popularity_of(
                    #[trigger] u[t],
                    offerings_of(entries)[t].program_name@,
                    offerings_of(entries)[t].funding_source@,
                    offerings_of(entries)[t].available_places,
                    records_of(
                        entries,
                        offerings_of(entries)[t].program_name@,
                        offerings_of(entries)[t].funding_source@,
                    ),
                )
            &&& r == sort_by(u, by_avg_priority())
        }
}

/// All records of all lists, each with the name of its program.
pub fn flatten_records(all: &Vec<(String, Vec<StudentRecord>)>) -> (r: Vec<(String, StudentRecord)>)
    ensures
        r@ == flat(all@),
{
    let mut out: Vec<(String, StudentRecord)> = Vec::new();
    let mut i: usize = 0;
    while i < all.len()
        invariant
            i <= all.len(),
            out@ == flat(all@.take(i as int)),
        decreases all.len() - i,
    {
        let name = &all[i].0;
        let list = &all[i].1;
        let ghost base = out@;
        let mut j: usize = 0;
        while j < list.len()
            invariant
                i < all.len(),
                name == all@[i as int].0,
                list == all@[i as int].1,
                j <= list.len(),
                out@ == base + list@.take(j as int).map_values(
                    |r: StudentRecord| (all@[i as int].0, r),
                ),
            decreases list.len() - j,
        {
            out.push((name.clone(), list[j].duplicate()));
            assert(out@ =~= base + list@.take(j + 1).map_values(
                |r: StudentRecord| (all@[i as int].0, r),
            ));
            j = j + 1;
        }
        assert(all@.take(i + 1).drop_last() == all@.take(i as int));
        assert(list@.take(list.len() as int) == list@);
        i = i + 1;
    }
    assert(all@.take(all.len() as int) == all@);
    out
}

/// Finds the first offering with these names.
pub fn find_offering(offers: &Vec<Offering>, name: &String, funding: &String) -> (r: Option<usize>)
    ensures
        r.is_some() ==> first_offering_at(offers@, name@, funding@, r.unwrap() as int),
        r.is_none() ==> forall|u: int|
            0 <= u < offers.len() ==> !offering_is(#[trigger] offers@[u], name@, funding@),
{
    let mut t: usize = 0;
    while t < offers.len()
        invariant
            t <= offers.len(),
            forall|u: int| 0 <= u < t ==> !offering_is(#[trigger] offers@[u], name@, funding@),
        decreases offers.len() - t,
    {
        if offers[t].program_name == *name && offers[t].funding_source == *funding {
            return Some(t);
        }
        t = t + 1;
    }
    None
}

/// The first offering with these names is the one that `offering_index` names.
pub proof fn lemma_offering_index(offers: Seq<Offering>, name: Seq<char>, funding: Seq<char>, t: int)
    requires
        first_offering_at(offers, name, funding, t),
    ensures
        offering_index(offers, name, funding) == Some(t),
{
    let c = choose|c: int| first_offering_at(offers, name, funding, c);
    assert(first_offering_at(offers, name, funding, c));
    if c < t {
        assert(!offering_is(offers[c], name, funding));
    } else if c > t {
        assert(!offering_is(offers[t], name, funding));
    }
}

/// The offerings that the records form, in order of first appearance.
pub fn collect_offerings(entries: &Vec<(String, StudentRecord)>) -> (r: Vec<Offering>)
    ensures
        r@ == offerings_of(entries@),
{
    let mut offers: Vec<Offering> = Vec::new();
    let mut i: usize = 0;
    while i < entries.len()
        invariant
            i <= entries.len(),
            offers@ == offerings_of(entries@.take(i as int)),
        decreases entries.len() - i,
    {
        let e = &entries[i];
        assert(entries@.take(i + 1).drop_last() == entries@.take(i as int));
        match find_offering(&offers, &e.0, &e.1.funding_source) {
            Some(t) => {
                assert(offering_is(offers@[t as int], e.0@, e.1.funding_source@));
            },
            None => {
                offers.push(
                    Offering {
                        program_name: e.0.clone(),
                        funding_source: e.1.funding_source.clone(),
                        available_places: e.1.available_places,
                    },
                );
            },
        }
        i = i + 1;
    }
    assert(entries@.take(entries.len() as int) == entries@);
    offers
}

/// The records of one offering, in order.
pub fn offering_records(entries: &Vec<(String, StudentRecord)>, name: &String, funding: &String) -> (r:
    Vec<StudentRecord>)
    ensures
        r@ == records_of(entries@, name@, funding@),
{
    let mut out: Vec<StudentRecord> = Vec::new();
    let mut i: usize = 0;
    while i < entries.len()
        invariant
            i <= entries.len(),
            out@ == records_of(entries@.take(i as int), name@, funding@),
        decreases entries.len() - i,
    {
        assert(entries@.take(i + 1).drop_last() == entries@.take(i as int));
        if entries[i].0 == *name && entries[i].1.funding_source == *funding {
            out.push(entries[i].1.duplicate());
        }
        i = i + 1;
    }
    assert(entries@.take(entries.len() as int) == entries@);
    out
}

/// The eager records, in order.
pub fn eager_records(records: &Vec<StudentRecord>) -> (r: Vec<StudentRecord>)
    ensures
        r@ == eager_only(records@),
{
    let mut out: Vec<StudentRecord> = Vec::new();
    let mut i: usize = 0;
    while i < records.len()
        invariant
            i <= records.len(),
            out@ == eager_only(records@.take(i as int)),
        decreases records.len() - i,
    {
        assert(records@.take(i + 1).drop_last() == records@.take(i as int));
        if records[i].is_eager() {
            out.push(records[i].duplicate());
        }
        i = i + 1;
    }
    assert(records@.take(records.len() as int) == records@);
    out
}

/// The key of an offering: program name, '_', funding source.
pub fn make_offering_key(name: &str, funding: &str) -> (r: String)
    ensures
        r@ == offering_key(name@, funding@),
{
    let mut key = String::from_str(name);
    proof {
        reveal_strlit("_");
    }
    key.append("_");
    key.append(funding);
    proof {
        assert(key@ =~= offering_key(name@, funding@));
    }
    key
}

/// The popularity of one offering from its records, of which there is at
/// least one: its seats are those given by the first.
pub fn calculate_program_popularity(
    program_name: &String,
    funding_source: &String,
    records: &Vec<StudentRecord>,
) -> (r: ProgramPopularity)
    requires
        records.len() > 0,
    ensures
        popularity_of(r, program_name@, funding_source@, records@[0].available_places, records@),
{
    let available_places = records[0].available_places;
    let eager = eager_records(records);
    let ranked = sort_records_by_rank(eager);
    let n = ranked.len();
    let twice: u64 = 2 * (available_places as u64);
    let top: usize = if twice < n as u64 {
        twice as usize
    } else {
        n
    };
    let mut top_sum: u128 = 0;
    let mut score_sum: u128 = 0;
    let mut score_count: u64 = 0;
    let mut i: usize = 0;
    while i < n
        invariant
            n == ranked.len(),
            top <= n,
            i <= n,
            top_sum == priority_sum(ranked@.take(if i < top { i as int } else { top as int })),
            top_sum <= i * u32::MAX,
            score_sum == parsed_sum(ranked@.take(i as int)),
            score_sum <= i * u64::MAX,
            score_count == parsed_count(ranked@.take(i as int)),
            score_count <= i,
        decreases n - i,
    {
        let rec = &ranked[i];
        assert(ranked@.take(i + 1).drop_last() == ranked@.take(i as int));
        if i < top {
            top_sum = top_sum + rec.priority as u128;
        }
        match rec.get_numeric_score() {
            Some(v) => {
                score_sum = score_sum + v as u128;
                score_count = score_count + 1;
            },
            None => {},
        }
        i = i + 1;
    }
    assert(ranked@.take(n as int) == ranked@);
    ProgramPopularity {
        program_name: program_name.clone(),
        program_key: make_offering_key(program_name.as_str(), funding_source.as_str()),
        funding_source: funding_source.clone(),
        top_priority_sum: top_sum,
        top_count: top as u64,
        score_sum,
        score_count,
        available_places,
        total_eager_applicants: n,
        eager_applicants: ranked,
    }
}

/// Places `x` after every popularity that it does not strictly precede.
fn insert_by_avg_priority(out: &mut Vec<ProgramPopularity>, x: ProgramPopularity)
    ensures
        final(out)@ == insert_by(old(out)@, x, by_avg_priority()),
{
    let mut p = out.len();
    while p > 0 && avg_less(
        x.top_priority_sum,
        x.top_count,
        out[p - 1].top_priority_sum,
        out[p - 1].top_count,
    )
        invariant
            p <= out.len(),
            out@ == old(out)@,
            forall|j: int| p <= j < out.len() ==> (by_avg_priority())(x, #[trigger] out@[j]),
        decreases p,
    {
        p = p - 1;
    }
    proof {
        lemma_insert_at(out@, x, by_avg_priority(), p as int);
    }
    out.insert(p, x);
}

/// The popularity of every offering, the most sought-after first (lowest
/// average priority of its top candidates); ties keep the order in which
/// the offerings first appear.
pub fn calculate_all_program_popularities(entries: &Vec<(String, StudentRecord)>) -> (r: Vec<
    ProgramPopularity,
>)
    ensures
        popularity_ranking(r@, entries@),
{
    let offers = collect_offerings(entries);
    let ghost offs = offers@;
    let ghost mut unsorted: Seq<ProgramPopularity> = Seq::empty();
    let mut sorted: Vec<ProgramPopularity> = Vec::new();
    let mut t: usize = 0;
    proof {
        lemma_offerings_start(entries@);
    }
    while t < offers.len()
        invariant
            offers@ == offs,
            offs == offerings_of(entries@),
            forall|v: int|
                0 <= v < offs.len() ==> records_of(
                    entries@,
                    #[trigger] offs[v].program_name@,
                    offs[v].funding_source@,
                ).len() > 0 && records_of(entries@, offs[v].program_name@, offs[v].funding_source@)[0].available_places
                    == offs[v].available_places,
            t <= offers.len(),
            unsorted.len() == t,
            forall|v: int|
                0 <= v < t ==> popularity_of(
                    #[trigger] unsorted[v],
                    offs[v].program_name@,
                    offs[v].funding_source@,
                    offs[v].available_places,
                    records_of(entries@, offs[v].program_name@, offs[v].funding_source@),
                ),
            sorted@ == sort_by(unsorted, by_avg_priority()),
        decreases offers.len() - t,
    {
        let o = &offers[t];
        let recs = offering_records(entries, &o.program_name, &o.funding_source);
        assert(recs@.len() > 0 && recs@[0].available_places == o.available_places) by {
            assert(offs[t as int].program_name@ == o.program_name@);
        }
        let p = calculate_program_popularity(&o.program_name, &o.funding_source, &recs);
        let ghost before = unsorted;
        proof {
            unsorted = unsorted.push(p);
            assert(unsorted.drop_last() == before);
        }
        insert_by_avg_priority(&mut sorted, p);
        t = t + 1;
    }
    proof {
        assert(unsorted.len() == offerings_of(entries@).len());
    }
    sorted
}

/// Each record of an offering makes the offering known.
proof fn lemma_records_known(entries: Seq<(String, StudentRecord)>, name: Seq<char>, funding: Seq<char>)
    requires
        records_of(entries, name, funding).len() > 0,
    ensures
        offering_known(offerings_of(entries), name, funding),
    decreases entries.len(),
{
    let prev = entries.drop_last();
    let e = entries.last();
    let po = offerings_of(prev);
    if e.0@ == name && e.1.funding_source@ == funding {
        if !offering_known(po, name, funding) {
            assert(offering_is(offerings_of(entries)[po.len() as int], name, funding));
        } else {
            let t = choose|t: int| 0 <= t < po.len() && offering_is(#[trigger] po[t], name, funding);
            assert(offering_is(offerings_of(entries)[t], name, funding));
        }
    } else {
        lemma_records_known(prev, name, funding);
        let t = choose|t: int| 0 <= t < po.len() && offering_is(#[trigger] po[t], name, funding);
        if !offering_known(po, e.0@, e.1.funding_source@) {
            assert(offerings_of(entries)[t] == po[t]);
        }
        assert(offering_is(offerings_of(entries)[t], name, funding));
    }
}

/// Every offering has records, and its seats are those of its first record.
proof fn lemma_offerings_start(entries: Seq<(String, StudentRecord)>)
    ensures
        forall|v: int|
            0 <= v < offerings_of(entries).len() ==> records_of(
                entries,
                #[trigger] offerings_of(entries)[v].program_name@,
                offerings_of(entries)[v].funding_source@,
            ).len() > 0 && records_of(
                entries,
                offerings_of(entries)[v].program_name@,
                offerings_of(entries)[v].funding_source@,
            )[0].available_places == offerings_of(entries)[v].available_places,
    decreases entries.len(),
{
    if entries.len() > 0 {
        let prev = entries.drop_last();
        let e = entries.last();
        let po = offerings_of(prev);
        lemma_offerings_start(prev);
        let offs = offerings_of(entries);
        assert forall|v: int| 0 <= v < offs.len() implies records_of(
            entries,
            #[trigger] offs[v].program_name@,
            offs[v].funding_source@,
        ).len() > 0 && records_of(entries, offs[v].program_name@, offs[v].funding_source@)[0].available_places
            == offs[v].available_places by {
            let n = offs[v].program_name@;
            let f = offs[v].funding_source@;
            if v < po.len() {
                assert(offs[v] == po[v]);
                assert(po[v].program_name@ == n);
            } else {
                assert(!offering_known(po, e.0@, e.1.funding_source@));
                assert(n == e.0@ && f == e.1.funding_source@);
                if records_of(prev, n, f).len() > 0 {
                    lemma_records_known(prev, n, f);
                }
            }
        }
    }
}

proof fn lemma_eager_only_within(s: Seq<StudentRecord>)
    ensures
        forall|x: StudentRecord| #[trigger] eager_only(s).contains(x) ==> s.contains(x) && eager(x),
    decreases s.len(),
{
    if s.len() > 0 {
        let d = s.drop_last();
        lemma_eager_only_within(d);
        assert forall|x: StudentRecord| #[trigger] eager_only(s).contains(x) implies s.contains(x) && eager(x) by {
            if eager_only(d).contains(x) {
                let i = choose|i: int| 0 <= i < d.len() && d[i] == x;
                assert(s[i] == x);
            } else {
                assert(x == s.last());
                assert(s[s.len() - 1] == x);
            }
        }
    }
}

proof fn lemma_priority_sum_bounds(s: Seq<StudentRecord>, lo: nat, hi: nat)
    requires
        forall|i: int| 0 <= i < s.len() ==> lo <= (#[trigger] s[i]).priority <= hi,
    ensures
        s.len() * lo <= priority_sum(s) <= s.len() * hi,
    decreases s.len(),
{
    if s.len() > 0 {
        let d = s.drop_last();
        assert forall|i: int| 0 <= i < d.len() implies lo <= (#[trigger] d[i]).priority <= hi by {
            assert(d[i] == s[i]);
        }
        lemma_priority_sum_bounds(d, lo, hi);
        assert(s.last() == s[s.len() - 1]);
        assert(s.len() * lo == d.len() * lo + lo) by (nonlinear_arith)
            requires
                s.len() == d.len() + 1,
        ;
        assert(s.len() * hi == d.len() * hi + hi) by (nonlinear_arith)
            requires
                s.len() == d.len() + 1,
        ;
    }
}

/// The average priority of an offering's top candidates lies within the
/// range of its records' priorities: whatever eager records join, the
/// average stays between the lowest and the highest priority among them.
pub proof fn lemma_top_priority_bounds(
    p: ProgramPopularity,
    name: Seq<char>,
    funding: Seq<char>,
    places: u32,
    records: Seq<StudentRecord>,
    lo: nat,
    hi: nat,
)
    requires
        popularity_of(p, name, funding, places, records),
        forall|i: int| 0 <= i < records.len() ==> lo <= (#[trigger] records[i]).priority <= hi,
    ensures
        p.top_count * lo <= p.top_priority_sum <= p.top_count * hi,
{
    let eg = eager_only(records);
    let ranked = sort_by(eg, by_rank());
    let top = top_size(places, ranked.len());
    let t = ranked.take(top as int);
    lemma_eager_only_within(records);
    assert forall|i: int| 0 <= i < t.len() implies lo <= (#[trigger] t[i]).priority <= hi by {
        let x = t[i];
        assert(x == ranked[i]);
        assert(ranked.contains(x));
        crate::order::lemma_sort_by_contains(eg, by_rank(), x);
        assert(eg.contains(x));
        assert(records.contains(x));
        let w = choose|w: int| 0 <= w < records.len() && records[w] == x;
        assert(lo <= records[w].priority <= hi);
    }
    lemma_priority_sum_bounds(t, lo, hi);
}

/// Whether every record gives the same number of seats.
pub open spec fn seats_agree(records: Seq<StudentRecord>) -> bool {
    forall|i: int|
        0 <= i < records.len() ==> (#[trigger] records[i]).available_places
            == records[0].available_places
}

/// Whether the records of one offering agree on its seats; where they do
/// not, the data are in error.
pub fn capacity_consistent(records: &Vec<StudentRecord>) -> (r: bool)
    ensures
        r == seats_agree(records@),
{
    let mut i: usize = 0;
    while i < records.len()
        invariant
            i <= records.len(),
            forall|x: int| 0 <= x < i ==> (#[trigger] records@[x]).available_places
                == records@[0].available_places,
        decreases records.len() - i,
    {
        if records[i].available_places != records[0].available_places {
            return false;
        }
        i = i + 1;
    }
    true
}

/// Demand order, the other measure of popularity: more eager applicants per
/// seat first (an offering without seats counts as no demand).
pub open spec fn by_demand() -> spec_fn(ProgramPopularity, ProgramPopularity) -> bool {
    |a: ProgramPopularity, b: ProgramPopularity|
        avg_lt(
            b.total_eager_applicants as int,
            b.available_places as int,
            a.total_eager_applicants as int,
            a.available_places as int,
        )
}

fn insert_by_demand(out: &mut Vec<ProgramPopularity>, x: ProgramPopularity)
    ensures
        final(out)@ == insert_by(old(out)@, x, by_demand()),
{
    let mut p = out.len();
    while p > 0 && avg_less(
        out[p - 1].total_eager_applicants as u128,
        out[p - 1].available_places as u64,
        x.total_eager_applicants as u128,
        x.available_places as u64,
    )
        invariant
            p <= out.len(),
            out@ == old(out)@,
            forall|j: int| p <= j < out.len() ==> (by_demand())(x, #[trigger] out@[j]),
        decreases p,
    {
        p = p - 1;
    }
    proof {
        lemma_insert_at(out@, x, by_demand(), p as int);
    }
    out.insert(p, x);
}

/// The popularities re-ordered by demand: eager applicants per seat,
/// highest first; ties keep their order.
pub fn sort_by_demand(popularities: Vec<ProgramPopularity>) -> (r: Vec<ProgramPopularity>)
    ensures
        r@ == sort_by(popularities@, by_demand()),
{
    let mut out: Vec<ProgramPopularity> = Vec::new();
    let mut rest = popularities;
    let ghost all = rest@;
    let n = rest.len();
    let mut taken: usize = 0;
    while rest.len() > 0
        invariant
            taken + rest@.len() == all.len(),
            all.len() == n,
            rest@ == all.subrange(taken as int, all.len() as int),
            out@ == sort_by(all.take(taken as int), by_demand()),
        decreases rest@.len(),
    {
        let x = rest.remove(0);
        assert(all.take(taken + 1).drop_last() == all.take(taken as int));
        assert(x == all[taken as int]);
        insert_by_demand(&mut out, x);
        taken = taken + 1;
        assert(rest@ =~= all.subrange(taken as int, all.len() as int));
    }
    assert(all.take(all.len() as int) == all);
    out
}

proof fn lemma_priority_sum_append(a: Seq<StudentRecord>, b: Seq<StudentRecord>)
    ensures
        priority_sum(a + b) == priority_sum(a) + priority_sum(b),
    decreases b.len(),
{
    if b.len() == 0 {
        assert(a + b == a);
    } else {
        lemma_priority_sum_append(a, b.drop_last());
        assert((a + b).drop_last() == a + b.drop_last());
        assert((a + b).last() == b.last());
    }
}

/// Adding an eager record ranked ahead of every eager record, with a
/// priority number no higher than any in the current top subset, does not
/// raise the average priority of the top candidates (the subset must not
/// be empty before: an empty one averages to zero).
pub proof fn lemma_leading_applicant_keeps_average(
    before: ProgramPopularity,
    after: ProgramPopularity,
    name: Seq<char>,
    funding: Seq<char>,
    places: u32,
    records: Seq<StudentRecord>,
    x: StudentRecord,
)
    requires
        popularity_of(before, name, funding, places, records),
        popularity_of(after, name, funding, places, records.push(x)),
        eager(x),
        forall|i: int| 0 <= i < records.len() && eager(#[trigger] records[i]) ==> x.rank < records[i].rank,
        before.top_count > 0,
        forall|j: int|
            0 <= j < before.top_count ==> x.priority <= (#[trigger] before.eager_applicants@[j]).priority,
    ensures
        !avg_lt(
            before.top_priority_sum as int,
            before.top_count as int,
            after.top_priority_sum as int,
            after.top_count as int,
        ),
{
    let e = eager_only(records);
    let old_ranked = sort_by(e, by_rank());
    let grown = records.push(x);
    assert(grown.drop_last() == records);
    assert(eager_only(grown) == e.push(x));
    assert(e.push(x).drop_last() == e);
    lemma_eager_only_within(records);
    assert forall|j: int| 0 <= j < old_ranked.len() implies (by_rank())(x, #[trigger] old_ranked[j]) by {
        let r = old_ranked[j];
        assert(old_ranked.contains(r));
        crate::order::lemma_sort_by_contains(e, by_rank(), r);
        assert(e.contains(r));
        let w = choose|w: int| 0 <= w < records.len() && records[w] == r;
        assert(eager(records[w]));
    }
    lemma_insert_at(old_ranked, x, by_rank(), 0);
    let new_ranked = sort_by(e.push(x), by_rank());
    assert(new_ranked == insert_by(old_ranked, x, by_rank()));
    assert(new_ranked == seq![x] + old_ranked) by {
        assert(old_ranked.insert(0, x) =~= seq![x] + old_ranked);
    }
    let n = old_ranked.len() as int;
    let m_old = before.top_count as int;
    let m_new = after.top_count as int;
    let s_old = before.top_priority_sum as int;
    let s_new = after.top_priority_sum as int;
    assert(priority_sum(seq![x]) == x.priority) by {
        assert(seq![x].drop_last() =~= Seq::<StudentRecord>::empty());
        assert(priority_sum(Seq::<StudentRecord>::empty()) == 0);
        assert(seq![x].last() == x);
        assert(priority_sum(seq![x]) == priority_sum(seq![x].drop_last()) + seq![x].last().priority
            as nat);
    }
    if 2 * places >= n + 1 {
        assert(m_old == n && m_new == n + 1);
        assert(old_ranked.take(n) == old_ranked);
        assert(new_ranked.take(n + 1) == new_ranked);
        lemma_priority_sum_append(seq![x], old_ranked);
        assert(s_new == x.priority + s_old);
        assert forall|j: int| 0 <= j < old_ranked.len() implies x.priority <= (
        #[trigger] old_ranked[j]).priority by {
            assert(old_ranked[j] == before.eager_applicants@[j]);
        }
        lemma_priority_sum_bounds(old_ranked, x.priority as nat, u32::MAX as nat);
        assert(s_new * m_old <= s_old * m_new) by (nonlinear_arith)
            requires
                s_new == x.priority + s_old,
                m_new == m_old + 1,
                m_old * x.priority <= s_old,
        ;
    } else {
        assert(m_old == 2 * places && m_new == 2 * places);
        let t = old_ranked.take(m_old - 1);
        assert(new_ranked.take(m_new) == seq![x] + t);
        lemma_priority_sum_append(seq![x], t);
        assert(old_ranked.take(m_old).drop_last() == t);
        assert(old_ranked.take(m_old).last() == old_ranked[m_old - 1]);
        assert(old_ranked[m_old - 1] == before.eager_applicants@[m_old - 1]);
        assert(s_new <= s_old);
        assert(s_new * m_old <= s_old * m_new) by (nonlinear_arith)
            requires
                s_new <= s_old,
                m_new == m_old,
                m_old > 0,
        ;
    }
}

} // verus!
