//! Collapsing repeated rows of one applicant within one list, and the
//! optional privileged-score adjustment.
use vstd::prelude::*;
use crate::models::{consent_given, document_given, key_of, score_value, StudentRecord};
use crate::order::{insert_by, lemma_insert_at, lemma_insert_by_position, lemma_sort_by_contains, sort_by};

verus! {

/// Whether `a` is the better row of one applicant than `b`: an original
/// document first, then consent, then the lower priority number.
pub open spec fn better(a: StudentRecord, b: StudentRecord) -> bool {
    if document_given(a) != document_given(b) {
        document_given(a)
    } else if consent_given(a) != consent_given(b) {
        consent_given(a)
    } else {
        a.priority < b.priority
    }
}

/// The canonical identifiers of the rows, in order.
pub open spec fn keys_of(s: Seq<StudentRecord>) -> Seq<Seq<char>> {
    s.map_values(|r: StudentRecord| key_of(r))
}

/// Whether `t` is the first place where `k` stands in `ks`.
pub open spec fn first_at(ks: Seq<Seq<char>>, k: Seq<char>, t: int) -> bool {
    0 <= t < ks.len() && ks[t] == k && forall|u: int| 0 <= u < t ==> ks[u] != k
}

/// The first place where `k` stands in `ks`, if any.
pub open spec fn position_of(ks: Seq<Seq<char>>, k: Seq<char>) -> Option<int> {
    if exists|t: int| first_at(ks, k, t) {
        Some(choose|t: int| first_at(ks, k, t))
    } else {
        None
    }
}

/// One row taken into the rows kept so far.
pub open spec fn dedup_step(kept: Seq<StudentRecord>, r: StudentRecord) -> Seq<StudentRecord> {
    match position_of(keys_of(kept), key_of(r)) {
        Some(t) => if better(r, kept[t]) {
            kept.update(t, r)
        } else {
            kept
        },
        None => kept.push(r),
    }
}

/// The best row of each applicant, in order of first appearance.
pub open spec fn dedup_fold(s: Seq<StudentRecord>) -> Seq<StudentRecord>
    decreases s.len(),
{
    if s.len() == 0 {
        s
    } else {
        dedup_step(dedup_fold(s.drop_last()), s.last())
    }
}

/// Rank order: the lower rank first.
pub open spec fn by_rank() -> spec_fn(StudentRecord, StudentRecord) -> bool {
    |a: StudentRecord, b: StudentRecord| a.rank < b.rank
}

/// Finds where `k` first stands in `keys`.
pub fn find_key(keys: &Vec<String>, k: &String) -> (r: Option<usize>)
    ensures
        r.is_some() ==> first_at(keys.deep_view(), k@, r.unwrap() as int),
        r.is_none() ==> forall|u: int| 0 <= u < keys.len() ==> keys.deep_view()[u] != k@,
{
    let mut t: usize = 0;
    while t < keys.len()
        invariant
            t <= keys.len(),
            forall|u: int| 0 <= u < t ==> keys.deep_view()[u] != k@,
        decreases keys.len() - t,
    {
        if keys[t] == *k {
            return Some(t);
        }
        t = t + 1;
    }
    None
}

/// The first place of a key is the place that `position_of` names.
pub proof fn lemma_position_of(ks: Seq<Seq<char>>, k: Seq<char>, t: int)
    requires
        first_at(ks, k, t),
    ensures
        position_of(ks, k) == Some(t),
{
    let c = choose|c: int| first_at(ks, k, c);
    assert(first_at(ks, k, c));
    if c < t {
        assert(ks[c] != k);
    } else if c > t {
        assert(ks[t] != k);
    }
}

/// Whether `record1` is the better row of one applicant than `record2`.
pub fn is_record_better(record1: &StudentRecord, record2: &StudentRecord) -> (r: bool)
    ensures
        r == better(*record1, *record2),
{
    let r1_has_doc = record1.has_original_document();
    let r2_has_doc = record2.has_original_document();
    if r1_has_doc != r2_has_doc {
        return r1_has_doc;
    }
    let r1_has_consent = record1.has_consent();
    let r2_has_consent = record2.has_consent();
    if r1_has_consent != r2_has_consent {
        return r1_has_consent;
    }
    record1.priority < record2.priority
}

/// Places `x` into `out` after every row whose rank is not above its own.
pub fn insert_by_rank(out: &mut Vec<StudentRecord>, x: StudentRecord)
    ensures
        final(out)@ == insert_by(old(out)@, x, by_rank()),
{
    let mut p = out.len();
    while p > 0 && x.rank < out[p - 1].rank
        invariant
            p <= out.len(),
            out@ == old(out)@,
            forall|j: int| p <= j < out.len() ==> (by_rank())(x, #[trigger] out@[j]),
        decreases p,
    {
        p = p - 1;
    }
    proof {
        lemma_insert_at(out@, x, by_rank(), p as int);
    }
    out.insert(p, x);
}

/// The rows in order of rank; rows of equal rank keep their order.
pub fn sort_records_by_rank(records: Vec<StudentRecord>) -> (r: Vec<StudentRecord>)
    ensures
        r@ == sort_by(records@, by_rank()),
{
    let mut out: Vec<StudentRecord> = Vec::new();
    let mut i: usize = 0;
    while i < records.len()
        invariant
            i <= records.len(),
            out@ == sort_by(records@.take(i as int), by_rank()),
        decreases records.len() - i,
    {
        assert(records@.take(i + 1).drop_last() == records@.take(i as int));
        insert_by_rank(&mut out, records[i].duplicate());
        i = i + 1;
    }
    assert(records@.take(records.len() as int) == records@);
    out
}

/// Keeps one row per applicant within one list: the best by `better`, the
/// earlier row on a tie. The rows come back in order of rank.
pub fn deduplicate_records_by_snils(records: Vec<StudentRecord>) -> (r: Vec<StudentRecord>)
    ensures
        r@ == sort_by(dedup_fold(records@), by_rank()),
{
    let mut kept: Vec<StudentRecord> = Vec::new();
    let mut keys: Vec<String> = Vec::new();
    let mut i: usize = 0;
    while i < records.len()
        invariant
            i <= records.len(),
            kept@ == dedup_fold(records@.take(i as int)),
            keys.deep_view() == keys_of(kept@),
        decreases records.len() - i,
    {
        let record = records[i].duplicate();
        assert(records@.take(i + 1).drop_last() == records@.take(i as int));
        let k = record.get_normalized_snils();
        match find_key(&keys, &k) {
            Some(t) => {
                proof {
                    lemma_position_of(keys_of(kept@), k@, t as int);
                }
                if is_record_better(&record, &kept[t]) {
                    kept.set(t, record);
                    proof {
                        assert(keys.deep_view() =~= keys_of(kept@));
                    }
                }
            },
            None => {
                assert(!exists|t: int| first_at(keys_of(kept@), k@, t));
                let ghost old_keys = keys@;
                let ghost old_view = keys.deep_view();
                let ghost old_kept = kept@;
                kept.push(record);
                keys.push(k);
                proof {
                    assert forall|j: int| 0 <= j < keys.len() implies keys.deep_view()[j]
                        == keys_of(kept@)[j] by {
                        if j < keys.len() - 1 {
                            assert(keys@[j] == old_keys[j]);
                            assert(old_view[j] == old_keys[j]@);
                            assert(kept@[j] == old_kept[j]);
                            assert(keys_of(old_kept)[j] == key_of(old_kept[j]));
                        }
                    }
                    assert(keys.deep_view() =~= keys_of(kept@));
                }
            },
        }
        i = i + 1;
    }
    assert(records@.take(records.len() as int) == records@);
    sort_records_by_rank(kept)
}

/// The highest parsed score among the rows, and zero if none is higher.
pub open spec fn top_score(s: Seq<StudentRecord>) -> nat
    decreases s.len(),
{
    if s.len() == 0 {
        0
    } else {
        let m = top_score(s.drop_last());
        match score_value(s.last()) {
            Some(v) => if m < v {
                v as nat
            } else {
                m
            },
            None => m,
        }
    }
}

/// The last place whose parsed score is `m`, and zero if there is none.
pub open spec fn last_with_score(s: Seq<StudentRecord>, m: nat) -> int
    decreases s.len(),
{
    if s.len() == 0 {
        0
    } else if score_value(s.last()) == Some(m as u64) && m <= u64::MAX {
        s.len() - 1
    } else {
        last_with_score(s.drop_last(), m)
    }
}

/// The row with its score text replaced.
pub open spec fn with_score_text(r: StudentRecord, t: String) -> StudentRecord {
    StudentRecord { average_score: t, ..r }
}

/// Whether the adjustment raises a row to the score `m`.
pub open spec fn raised(r: StudentRecord, m: nat) -> bool {
    match score_value(r) {
        Some(v) => v < m,
        None => false,
    }
}

proof fn lemma_last_with_score(s: Seq<StudentRecord>, m: nat)
    ensures
        0 <= last_with_score(s, m) <= s.len(),
        s.len() > 0 ==> last_with_score(s, m) < s.len(),
        last_with_score(s, m) > 0 ==> score_value(s[last_with_score(s, m)]) == Some(m as u64),
    decreases s.len(),
{
    if s.len() > 0 {
        lemma_last_with_score(s.drop_last(), m);
    }
}

/// The optional privileged-score adjustment: every row before the last row
/// that holds the top score, and whose own parsed score is lower, takes
/// that row's score text. Other rows stay as they are.
pub fn set_max_score_on_privileged_records(records: &mut Vec<StudentRecord>)
    ensures
        final(records)@.len() == old(records)@.len(),
        forall|i: int|
            0 <= i < old(records)@.len() ==> #[trigger] final(records)@[i] == if i
                < last_with_score(old(records)@, top_score(old(records)@)) && raised(
                old(records)@[i],
                top_score(old(records)@),
            ) {
                with_score_text(
                    old(records)@[i],
                    old(records)@[last_with_score(old(records)@, top_score(old(records)@))].average_score,
                )
            } else {
                old(records)@[i]
            },
{
    let ghost s = records@;
    let n = records.len();
    let mut top: u64 = 0;
    let mut i: usize = 0;
    while i < n
        invariant
            n == s.len(),
            records@ == s,
            i <= n,
            top as nat == top_score(s.take(i as int)),
        decreases n - i,
    {
        assert(s.take(i + 1).drop_last() == s.take(i as int));
        match records[i].get_numeric_score() {
            Some(v) => {
                if top < v {
                    top = v;
                }
            },
            None => {},
        }
        i = i + 1;
    }
    assert(s.take(n as int) == s);
    let mut p: usize = n;
    let mut found = false;
    while p > 0 && !found
        invariant
            n == s.len(),
            records@ == s,
            p <= n,
            found ==> p < n && score_value(s[p as int]) == Some(top) && last_with_score(s, top as nat) == p,
            !found ==> last_with_score(s, top as nat) == last_with_score(s.take(p as int), top as nat),
        decreases p + if found { 0int } else { 1int },
    {
        assert(s.take(p as int).drop_last() == s.take(p - 1));
        assert(s.take(p as int).last() == s[p - 1]);
        if records[p - 1].get_numeric_score() == Some(top) {
            found = true;
        }
        p = p - 1;
    }
    proof {
        lemma_last_with_score(s, top as nat);
        if !found {
            assert(last_with_score(s.take(0), top as nat) == 0);
        }
    }
    let last = if found {
        p
    } else {
        0
    };
    if last == 0 {
        return;
    }
    let text = records[last].average_score.clone();
    let mut j: usize = 0;
    while j < last
        invariant
            n == s.len(),
            records@.len() == n,
            last < n,
            last as int == last_with_score(s, top as nat),
            top as nat == top_score(s),
            text == s[last as int].average_score,
            j <= last,
            forall|t: int|
                0 <= t < n ==> #[trigger] records@[t] == if t < j && raised(s[t], top as nat) {
                    with_score_text(s[t], text)
                } else {
                    s[t]
                },
        decreases last - j,
    {
        match records[j].get_numeric_score() {
            Some(v) => {
                if v < top {
                    let mut r = records[j].duplicate();
                    r.average_score = text.clone();
                    records.set(j, r);
                }
            },
            None => {},
        }
        j = j + 1;
    }
}

/// Whether no two rows belong to one applicant.
pub open spec fn keys_distinct(s: Seq<StudentRecord>) -> bool {
    forall|i: int, j: int| 0 <= i < j < s.len() ==> key_of(#[trigger] s[i]) != key_of(#[trigger] s[j])
}

/// Whether some row belongs to the applicant `k`.
pub open spec fn has_row_for(rows: Seq<StudentRecord>, k: Seq<char>) -> bool {
    exists|t: int| 0 <= t < rows.len() && key_of(#[trigger] rows[t]) == k
}

proof fn lemma_fold_keys(s: Seq<StudentRecord>)
    ensures
        keys_distinct(dedup_fold(s)),
        forall|i: int| 0 <= i < s.len() ==> has_row_for(dedup_fold(s), key_of(#[trigger] s[i])),
    decreases s.len(),
{
    if s.len() > 0 {
        let d = s.drop_last();
        let kept = dedup_fold(d);
        let r = s.last();
        let k = key_of(r);
        lemma_fold_keys(d);
        let ks = keys_of(kept);
        let now = dedup_fold(s);
        if exists|t: int| 0 <= t < kept.len() && key_of(kept[t]) == k {
            let t = choose|t: int| 0 <= t < kept.len() && key_of(kept[t]) == k;
            assert(first_at(ks, k, t)) by {
                assert forall|u: int| 0 <= u < t implies ks[u] != k by {
                    assert(key_of(kept[u]) != key_of(kept[t]));
                }
            }
            lemma_position_of(ks, k, t);
            assert forall|u: int| 0 <= u < now.len() implies key_of(#[trigger] now[u]) == key_of(kept[u]) by {}
        } else {
            assert(!exists|t: int| first_at(ks, k, t));
            assert(now == kept.push(r));
            assert forall|u: int| 0 <= u < kept.len() implies #[trigger] now[u] == kept[u] by {}
        }
        assert forall|i: int| 0 <= i < s.len() implies has_row_for(now, key_of(#[trigger] s[i])) by {
            if i < d.len() {
                assert(s[i] == d[i]);
                assert(has_row_for(kept, key_of(d[i])));
                let t = choose|t: int| 0 <= t < kept.len() && key_of(#[trigger] kept[t]) == key_of(d[i]);
                assert(key_of(now[t]) == key_of(kept[t]));
            } else if exists|t: int| 0 <= t < kept.len() && key_of(kept[t]) == k {
                let t = choose|t: int| 0 <= t < kept.len() && key_of(kept[t]) == k;
                assert(key_of(now[t]) == k);
            } else {
                assert(now[kept.len() as int] == r);
            }
        }
    }
}

proof fn lemma_sort_keeps_keys_distinct(s: Seq<StudentRecord>)
    requires
        keys_distinct(s),
    ensures
        keys_distinct(sort_by(s, by_rank())),
    decreases s.len(),
{
    if s.len() > 0 {
        let d = s.drop_last();
        let x = s.last();
        assert(keys_distinct(d)) by {
            assert forall|i: int, j: int| 0 <= i < j < d.len() implies key_of(#[trigger] d[i]) != key_of(
                #[trigger] d[j],
            ) by {
                assert(d[i] == s[i] && d[j] == s[j]);
            }
        }
        lemma_sort_keeps_keys_distinct(d);
        let sd = sort_by(d, by_rank());
        assert forall|y: StudentRecord| sd.contains(y) implies key_of(y) != key_of(x) by {
            lemma_sort_by_contains(d, by_rank(), y);
            let w = choose|w: int| 0 <= w < d.len() && d[w] == y;
            assert(s[w] == y);
            assert(key_of(s[w]) != key_of(s[s.len() - 1]));
        }
        lemma_insert_by_position(sd, x, by_rank());
        let p = choose|p: int| 0 <= p <= sd.len() && #[trigger] insert_by(sd, x, by_rank()) == sd.insert(p, x);
        let out = sd.insert(p, x);
        assert(sort_by(s, by_rank()) == insert_by(sd, x, by_rank()));
        assert forall|i: int, j: int| 0 <= i < j < out.len() implies key_of(#[trigger] out[i]) != key_of(
            #[trigger] out[j],
        ) by {
            if i == p {
                assert(out[j] == sd[j - 1]);
                assert(sd.contains(sd[j - 1]));
            } else if j == p {
                assert(out[i] == sd[i]);
                assert(sd.contains(sd[i]));
            } else {
                let a = if i < p { i } else { i - 1 };
                let b = if j < p { j } else { j - 1 };
                assert(out[i] == sd[a] && out[j] == sd[b]);
            }
        }
    }
}

/// Deduplication leaves exactly one row for each applicant of the list:
/// no two rows share a canonical identifier, and every applicant keeps one.
pub proof fn lemma_one_row_per_applicant(records: Seq<StudentRecord>)
    ensures
        keys_distinct(sort_by(dedup_fold(records), by_rank())),
        forall|i: int|
            0 <= i < records.len() ==> has_row_for(
                sort_by(dedup_fold(records), by_rank()),
                key_of(#[trigger] records[i]),
            ),
{
    lemma_fold_keys(records);
    let f = dedup_fold(records);
    lemma_sort_keeps_keys_distinct(f);
    let sf = sort_by(f, by_rank());
    assert forall|i: int| 0 <= i < records.len() implies has_row_for(sf, key_of(#[trigger] records[i])) by {
        assert(has_row_for(f, key_of(records[i])));
        let t = choose|t: int| 0 <= t < f.len() && key_of(#[trigger] f[t]) == key_of(records[i]);
        assert(f.contains(f[t]));
        lemma_sort_by_contains(f, by_rank(), f[t]);
        let w = choose|w: int| 0 <= w < sf.len() && sf[w] == f[t];
        assert(key_of(sf[w]) == key_of(records[i]));
    }
}

} // verus!
