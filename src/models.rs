//! Records of the published admission lists and the settings of a run.
use vstd::prelude::*;
use vstd::string::*;
use crate::score::{parse_score, score_of};
use crate::text::{canon, contains_text, lower_of, normalize_snils, occurs_in, to_lower};

verus! {

/// Where the admission lists are read from.
#[derive(Debug, Clone, Copy, PartialEq, Eq, Structural)]
pub enum DataSourceMode {
    Local,
    Internet,
    Both,
}

/// Settings of one analysis run.
#[derive(Debug, Clone)]
pub struct Config {
    pub target_snils: String,
    pub programs_of_interest: Option<Vec<String>>,
    pub target_funding_types: Vec<String>,
    pub data_source_mode: DataSourceMode,
    pub data_directory: Option<String>,
    pub internet_urls: Option<Vec<String>>,
    pub output_directory: Option<String>,
}

impl Default for Config {
    /// The settings written out for a first run: no target yet, local files
    /// from `data-source`, reports to `output`, budget funding only.
    fn default() -> (r: Self)
        ensures
            r.target_snils@ == Seq::<char>::empty(),
            r.programs_of_interest is Some,
            r.programs_of_interest->0@.len() == 2,
            r.programs_of_interest->0@[0]@ == "ОП СПО Лечебное дело"@,
            r.programs_of_interest->0@[1]@ == "ОП СПО Фармация"@,
            r.target_funding_types@.len() == 1,
            r.target_funding_types@[0]@ == "Бюджетное финансирование"@,
            r.data_source_mode == DataSourceMode::Local,
            r.data_directory is Some,
            r.data_directory->0@ == "data-source"@,
            r.internet_urls is Some,
            r.internet_urls->0@.len() == 2,
            r.output_directory is Some,
            r.output_directory->0@ == "output"@,
    {
        Config {
            target_snils: String::new(),
            programs_of_interest: Some(
                vec![
                    String::from_str("ОП СПО Лечебное дело"),
                    String::from_str("ОП СПО Фармация"),
                ],
            ),
            target_funding_types: vec![String::from_str("Бюджетное финансирование")],
            data_source_mode: DataSourceMode::Local,
            data_directory: Some(String::from_str("data-source")),
            internet_urls: Some(
                vec![
                    String::from_str("https://example.com/admission-list1"),
                    String::from_str("https://example.com/admission-list2"),
                ],
            ),
            output_directory: Some(String::from_str("output")),
        }
    }
}

/// One row of one program's published ranked list.
#[derive(Debug, Clone)]
pub struct StudentRecord {
    pub rank: u32,
    pub snils: String,
    pub priority: u32,
    pub consent: String,
    pub document_type: String,
    pub average_score: String,
    pub subject_scores: String,
    pub psychological_test: String,
    pub program_name: String,
    pub funding_source: String,
    pub study_form: String,
    pub available_places: u32,
}

/// The heading of one published list.
#[derive(Debug, Clone)]
pub struct ProgramInfo {
    pub name: String,
    pub funding_source: String,
    pub study_form: String,
    pub available_places: u32,
}

/// The word ("yes") that marks consent or an original document.
pub open spec fn yes_word() -> Seq<char> {
    seq!['д', 'а']
}

/// Whether a flag column says "yes", whatever its letter case.
pub open spec fn flag_set(column: Seq<char>) -> bool {
    occurs_in(yes_word(), lower_of(column))
}

/// Whether the record gives consent.
pub open spec fn consent_given(r: StudentRecord) -> bool {
    flag_set(r.consent@)
}

/// Whether the record comes with the original document.
pub open spec fn document_given(r: StudentRecord) -> bool {
    flag_set(r.document_type@)
}

/// An eager record: original document submitted or consent given.
pub open spec fn eager(r: StudentRecord) -> bool {
    document_given(r) || consent_given(r)
}

/// The canonical identifier of a record's applicant.
pub open spec fn key_of(r: StudentRecord) -> Seq<char> {
    canon(r.snils@)
}

/// The parsed score of a record, if its score text denotes one.
pub open spec fn score_value(r: StudentRecord) -> Option<u64> {
    score_of(r.average_score@)
}

/// The parsed score of a record, counting a missing one as zero.
pub open spec fn score_or_zero(r: StudentRecord) -> nat {
    match score_value(r) {
        Some(v) => v as nat,
        None => 0,
    }
}

fn says_yes(column: &String) -> (r: bool)
    ensures
        r == flag_set(column@),
{
    let lowered = to_lower(column.as_str());
    proof {
        reveal_strlit("да");
        assert("да"@ =~= yes_word());
    }
    contains_text(lowered.as_str(), "да")
}

impl StudentRecord {
    /// The score parsed from its text, in units of `1 / SCORE_SCALE`.
    pub fn get_numeric_score(&self) -> (r: Option<u64>)
        ensures
            r == score_value(*self),
    {
        parse_score(self.average_score.as_str())
    }

    /// Whether the consent column says "yes".
    pub fn has_consent(&self) -> (r: bool)
        ensures
            r == consent_given(*self),
    {
        says_yes(&self.consent)
    }

    /// Whether the document column says "yes".
    pub fn has_original_document(&self) -> (r: bool)
        ensures
            r == document_given(*self),
    {
        says_yes(&self.document_type)
    }

    /// Whether the record competes for a seat now.
    pub fn is_eager(&self) -> (r: bool)
        ensures
            r == eager(*self),
    {
        self.has_original_document() || self.has_consent()
    }

    /// The canonical form of the record's identifier.
    pub fn get_normalized_snils(&self) -> (r: String)
        ensures
            r@ == key_of(*self),
    {
        normalize_snils(self.snils.as_str())
    }

    /// A field-by-field copy.
    pub fn duplicate(&self) -> (r: StudentRecord)
        ensures
            r == *self,
    {
        StudentRecord {
            rank: self.rank,
            snils: self.snils.clone(),
            priority: self.priority,
            consent: self.consent.clone(),
            document_type: self.document_type.clone(),
            average_score: self.average_score.clone(),
            subject_scores: self.subject_scores.clone(),
            psychological_test: self.psychological_test.clone(),
            program_name: self.program_name.clone(),
            funding_source: self.funding_source.clone(),
            study_form: self.study_form.clone(),
            available_places: self.available_places,
        }
    }
}

} // verus!
