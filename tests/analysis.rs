use abitur_analyzer::analyzer::AdmissionAnalyzer;
use abitur_analyzer::models::StudentRecord;
use abitur_analyzer::outcome::{classify, cutoff_score, position_in_list, AdmissionStatus};
use abitur_analyzer::popularity::{
    calculate_all_program_popularities, calculate_program_popularity, capacity_consistent, collect_offerings,
    flatten_records, make_offering_key, sort_by_demand, Offering,
};
use abitur_analyzer::preferences::{prepare_eager_applicants, sort_for_seating};
use abitur_analyzer::simulation::{is_blocked, simulate_admission, simulate_admission_traced, Turn};
use abitur_analyzer::variants::{simulate_funding_priority, simulate_with_carry_over};

fn rec(
    program: &str,
    funding: &str,
    places: u32,
    rank: u32,
    snils: &str,
    priority: u32,
    eager: bool,
    score: &str,
) -> StudentRecord {
    StudentRecord {
        rank,
        snils: snils.to_string(),
        priority,
        consent: if eager { "Да".to_string() } else { "Нет".to_string() },
        document_type: "Копия".to_string(),
        average_score: score.to_string(),
        subject_scores: String::new(),
        psychological_test: "-".to_string(),
        program_name: program.to_string(),
        funding_source: funding.to_string(),
        study_form: "full-time".to_string(),
        available_places: places,
    }
}

fn end_to_end_lists() -> Vec<(String, Vec<StudentRecord>)> {
    vec![(
        "X".to_string(),
        vec![
            rec("X", "budget", 2, 1, "A", 1, true, "90"),
            rec("X", "budget", 2, 2, "B", 1, true, "85"),
            rec("X", "budget", 2, 3, "C", 2, true, "95"),
        ],
    )]
}

#[test]
fn end_to_end_single_program() {
    let lists = end_to_end_lists();
    let analyzer = AdmissionAnalyzer::new("B");
    let analysis = analyzer.analyze_all_programs(&lists);
    assert_eq!(analysis.final_admission_results.len(), 1);
    let x = &analysis.final_admission_results[0];
    assert_eq!(x.program_key, "X_budget");
    assert_eq!(x.admitted, vec!["C".to_string(), "A".to_string()]);
    assert!(analysis.target_applicant_found);
    assert_eq!(analysis.target_applicant_results, vec![("X_budget".to_string(), false)]);
    assert_eq!(analysis.target_outcomes.len(), 1);
    let o = &analysis.target_outcomes[0];
    assert_eq!(o.cutoff_score, Some(900000));
    assert_eq!(o.target_score, 850000);
    assert_eq!(o.position, None);
    assert_eq!(o.status, AdmissionStatus::NotAdmitted);
    let p = &analysis.program_popularities[0];
    assert_eq!(p.top_count, 3);
    assert_eq!(p.top_priority_sum, 4);
    assert_eq!(p.total_eager_applicants, 3);
    assert_eq!(p.score_sum, 2700000);
    assert_eq!(p.score_count, 3);
}

#[test]
fn admitted_target_has_a_position() {
    let lists = end_to_end_lists();
    let analysis = AdmissionAnalyzer::new("a").analyze_all_programs(&lists);
    assert_eq!(analysis.target_applicant_results, vec![("X_budget".to_string(), true)]);
    let o = &analysis.target_outcomes[0];
    assert_eq!(o.position, Some(2));
    assert_eq!(o.admitted_count, 2);
    assert_eq!(o.status, AdmissionStatus::Admitted);
}

#[test]
fn target_not_found_anywhere() {
    let lists = end_to_end_lists();
    let analysis = AdmissionAnalyzer::new("Z-9").analyze_all_programs(&lists);
    assert!(!analysis.target_applicant_found);
    assert!(analysis.target_applicant_results.is_empty());
    assert!(analysis.target_outcomes.is_empty());
}

#[test]
fn empty_input_gives_empty_analysis() {
    let analysis = AdmissionAnalyzer::new("A").analyze_all_programs(&Vec::new());
    assert!(analysis.program_popularities.is_empty());
    assert!(analysis.final_admission_results.is_empty());
    assert!(!analysis.target_applicant_found);
}

#[test]
fn applicant_takes_first_preference_with_room() {
    let lists = vec![
        (
            "P".to_string(),
            vec![
                rec("P", "budget", 1, 1, "A", 1, true, "99"),
                rec("P", "budget", 1, 2, "B", 1, true, "80"),
            ],
        ),
        (
            "Q".to_string(),
            vec![
                rec("Q", "budget", 1, 1, "B", 2, true, "80"),
                rec("Q", "budget", 1, 2, "C", 1, true, "70"),
            ],
        ),
    ];
    let analysis = AdmissionAnalyzer::new("C").analyze_all_programs(&lists);
    let r = &analysis.final_admission_results;
    assert_eq!(r[0].admitted, vec!["A".to_string()]);
    assert_eq!(r[1].admitted, vec!["B".to_string()]);
    let o = &analysis.target_outcomes[0];
    assert_eq!(o.status, AdmissionStatus::NotAdmitted);
    assert_eq!(o.cutoff_score, Some(800000));
}

#[test]
fn kept_out_by_priority_despite_score() {
    let lists = vec![
        (
            "P".to_string(),
            vec![rec("P", "budget", 1, 1, "A", 1, true, "99"), rec("P", "budget", 1, 2, "B", 2, true, "100")],
        ),
        (
            "Q".to_string(),
            vec![rec("Q", "budget", 1, 1, "B", 1, true, "80"), rec("Q", "budget", 1, 2, "C", 1, true, "85")],
        ),
    ];
    let analysis = AdmissionAnalyzer::new("C").analyze_all_programs(&lists);
    assert_eq!(analysis.final_admission_results[1].admitted, vec!["B".to_string()]);
    assert_eq!(analysis.target_outcomes[0].cutoff_score, Some(800000));
    assert_eq!(analysis.target_outcomes[0].status, AdmissionStatus::AdmittedByScoreNotByPriority);
}

#[test]
fn non_eager_applicants_are_not_seated() {
    let lists = vec![(
        "X".to_string(),
        vec![rec("X", "budget", 2, 1, "A", 1, false, "99"), rec("X", "budget", 2, 2, "B", 1, true, "50")],
    )];
    let analysis = AdmissionAnalyzer::new("A").analyze_all_programs(&lists);
    assert_eq!(analysis.final_admission_results[0].admitted, vec!["B".to_string()]);
    assert!(analysis.target_applicant_found);
}

#[test]
fn zero_seats_admit_nobody() {
    let lists = vec![("X".to_string(), vec![rec("X", "budget", 0, 1, "A", 1, true, "99")])];
    let analysis = AdmissionAnalyzer::new("A").analyze_all_programs(&lists);
    assert!(analysis.final_admission_results[0].admitted.is_empty());
    assert_eq!(analysis.target_outcomes[0].cutoff_score, None);
    assert_eq!(analysis.target_outcomes[0].status, AdmissionStatus::NotAdmitted);
}

#[test]
fn equal_scores_seat_the_better_average_rank_first() {
    let lists = vec![(
        "X".to_string(),
        vec![rec("X", "budget", 1, 2, "A", 1, true, "80"), rec("X", "budget", 1, 1, "B", 1, true, "80")],
    )];
    let entries = flatten_records(&lists);
    let queue = sort_for_seating(prepare_eager_applicants(&entries));
    assert_eq!(queue[0].snils, "B");
    assert_eq!(queue[1].snils, "A");
    let analysis = AdmissionAnalyzer::new("A").analyze_all_programs(&lists);
    assert_eq!(analysis.final_admission_results[0].admitted, vec!["B".to_string()]);
}

#[test]
fn applications_are_ordered_by_priority() {
    let lists = vec![
        ("P".to_string(), vec![rec("P", "budget", 1, 1, "A-1", 3, true, "4")]),
        ("Q".to_string(), vec![rec("Q", "budget", 1, 1, "a1", 1, true, "5")]),
        ("R".to_string(), vec![rec("R", "budget", 1, 1, "A1", 2, false, "5")]),
    ];
    let entries = flatten_records(&lists);
    let applicants = prepare_eager_applicants(&entries);
    assert_eq!(applicants.len(), 1);
    assert_eq!(applicants[0].snils, "A1");
    let programs: Vec<&str> = applicants[0].applications.iter().map(|a| a.program_name.as_str()).collect();
    assert_eq!(programs, vec!["Q", "P"]);
    assert_eq!(applicants[0].rank_sum, 2);
    assert_eq!(applicants[0].score_sum, 90000);
}

#[test]
fn popularity_of_one_offering() {
    let records = vec![
        rec("X", "budget", 1, 3, "C", 3, true, "3"),
        rec("X", "budget", 1, 1, "A", 1, true, "5"),
        rec("X", "budget", 1, 2, "B", 2, true, "x"),
        rec("X", "budget", 1, 4, "D", 1, false, "4"),
    ];
    let p = calculate_program_popularity(&"X".to_string(), &"budget".to_string(), &records);
    assert_eq!(p.total_eager_applicants, 3);
    let ranks: Vec<u32> = p.eager_applicants.iter().map(|r| r.rank).collect();
    assert_eq!(ranks, vec![1, 2, 3]);
    assert_eq!(p.top_count, 2);
    assert_eq!(p.top_priority_sum, 3);
    assert_eq!(p.score_sum, 80000);
    assert_eq!(p.score_count, 2);
    assert_eq!(p.program_key, "X_budget");
}

#[test]
fn popularity_of_offering_without_eager_records() {
    let records = vec![rec("X", "budget", 5, 1, "A", 1, false, "5")];
    let p = calculate_program_popularity(&"X".to_string(), &"budget".to_string(), &records);
    assert_eq!(p.top_count, 0);
    assert_eq!(p.top_priority_sum, 0);
    assert_eq!(p.score_count, 0);
}

#[test]
fn top_subset_average_stays_within_priorities() {
    let mut records = vec![rec("X", "budget", 1, 5, "A", 2, true, "5"), rec("X", "budget", 1, 6, "B", 3, true, "5")];
    let p = calculate_program_popularity(&"X".to_string(), &"budget".to_string(), &records);
    assert_eq!((p.top_priority_sum, p.top_count), (5, 2));
    records.push(rec("X", "budget", 1, 1, "C", 1, true, "5"));
    let q = calculate_program_popularity(&"X".to_string(), &"budget".to_string(), &records);
    assert_eq!((q.top_priority_sum, q.top_count), (3, 2));
    assert!(!abitur_analyzer::ratio::avg_less(p.top_priority_sum, p.top_count, q.top_priority_sum, q.top_count));
    assert!(q.top_priority_sum >= q.top_count as u128 * 1);
    assert!(q.top_priority_sum <= q.top_count as u128 * 3);
}

#[test]
fn popularity_ranking_order() {
    let lists = vec![
        (
            "P".to_string(),
            vec![rec("P", "budget", 1, 1, "A", 2, true, "5"), rec("P", "budget", 1, 2, "B", 1, true, "5")],
        ),
        ("Q".to_string(), vec![rec("Q", "budget", 1, 1, "C", 1, true, "5")]),
        ("R".to_string(), vec![rec("R", "budget", 1, 1, "D", 1, true, "5")]),
    ];
    let entries = flatten_records(&lists);
    let ranking = calculate_all_program_popularities(&entries);
    let names: Vec<&str> = ranking.iter().map(|p| p.program_name.as_str()).collect();
    assert_eq!(names, vec!["Q", "R", "P"]);
}

#[test]
fn offering_key_joins_with_underscore() {
    assert_eq!(make_offering_key("ОП СПО Фармация", "Бюджетное финансирование"), "ОП СПО Фармация_Бюджетное финансирование");
}

#[test]
fn status_rule() {
    assert_eq!(classify(true, 0, None), AdmissionStatus::Admitted);
    assert_eq!(classify(false, 950000, Some(900000)), AdmissionStatus::AdmittedByScoreNotByPriority);
    assert_eq!(classify(false, 900000, Some(900000)), AdmissionStatus::NotAdmitted);
    assert_eq!(classify(false, 850000, Some(900000)), AdmissionStatus::NotAdmitted);
    assert_eq!(classify(false, 100, Some(0)), AdmissionStatus::NotAdmitted);
    assert_eq!(classify(false, 100, None), AdmissionStatus::NotAdmitted);
}

#[test]
fn cutoff_and_position() {
    let records = vec![
        rec("X", "budget", 2, 1, "A-1", 1, true, "90"),
        rec("X", "budget", 2, 2, "B", 1, true, "85"),
        rec("X", "budget", 2, 3, "C", 2, true, "95"),
    ];
    let admitted = vec!["C".to_string(), "a1".to_string()];
    assert_eq!(cutoff_score(&admitted, &records), Some(900000));
    assert_eq!(cutoff_score(&Vec::new(), &records), None);
    assert_eq!(position_in_list(&admitted, &"A1".to_string()), Some(2));
    assert_eq!(position_in_list(&admitted, &"B".to_string()), None);
}

#[test]
fn capacity_and_single_seat_hold_in_a_crowded_run() {
    let mut lists = Vec::new();
    for (p, places) in [("P", 2u32), ("Q", 1), ("R", 3)] {
        let mut recs = Vec::new();
        for i in 0..8u32 {
            recs.push(rec(p, "budget", places, i + 1, &format!("id-{}", i), (i + p.len() as u32) % 3 + 1, i % 4 != 3, &format!("{}", 50 + i * 3)));
        }
        lists.push((p.to_string(), recs));
    }
    let analysis = AdmissionAnalyzer::new("id-1").analyze_all_programs(&lists);
    let mut seen = std::collections::HashSet::new();
    for r in &analysis.final_admission_results {
        assert!(r.admitted.len() <= r.available_places as usize);
        for s in &r.admitted {
            assert!(seen.insert(s.clone()));
        }
    }
}

#[test]
fn funding_priority_budget_first_then_commercial() {
    let records = vec![
        rec("Y", "budget", 1, 1, "B", 1, false, "5"),
        rec("Y", "budget", 1, 2, "A", 1, true, "5"),
        rec("Y", "commercial", 2, 1, "A", 2, true, "5"),
        rec("Y", "commercial", 2, 2, "C", 2, false, "5"),
        rec("Y", "commercial", 2, 3, "D", 1, true, "5"),
    ];
    let order = vec!["budget".to_string(), "commercial".to_string()];
    let lists = simulate_funding_priority(&records, &order);
    assert_eq!(lists, vec![vec!["A".to_string()], vec!["D".to_string(), "C".to_string()]]);
}

#[test]
fn funding_priority_fills_remaining_seats() {
    let records = vec![
        rec("Y", "budget", 3, 2, "A", 1, true, "5"),
        rec("Y", "budget", 3, 1, "B", 1, false, "5"),
    ];
    let lists = simulate_funding_priority(&records, &vec!["budget".to_string(), "other".to_string()]);
    assert_eq!(lists, vec![vec!["A".to_string(), "B".to_string()], Vec::<String>::new()]);
}

#[test]
fn carry_over_keeps_target_in_its_program_only() {
    let lists = vec![
        (
            "Y".to_string(),
            vec![
                rec("Y", "budget", 2, 1, "T", 1, true, "90"),
                rec("Y", "budget", 2, 2, "U", 1, true, "80"),
                rec("Y", "commercial", 1, 1, "T", 2, true, "90"),
            ],
        ),
        (
            "Z".to_string(),
            vec![
                rec("Z", "commercial", 1, 1, "T", 1, true, "90"),
                rec("Z", "commercial", 1, 2, "U", 2, true, "80"),
                rec("Z", "commercial", 1, 3, "V", 1, true, "50"),
            ],
        ),
    ];
    let r = simulate_with_carry_over(&lists, &"budget".to_string(), &"commercial".to_string(), "t");
    assert_eq!(r.first_round.len(), 1);
    assert_eq!(r.first_round[0].admitted, vec!["T".to_string(), "U".to_string()]);
    assert_eq!(r.second_round.len(), 2);
    assert_eq!(r.second_round[0].program_key, "Y_commercial");
    assert_eq!(r.second_round[0].admitted, vec!["T".to_string()]);
    assert_eq!(r.second_round[1].program_key, "Z_commercial");
    assert_eq!(r.second_round[1].admitted, vec!["V".to_string()]);
}

#[test]
fn exclusion_rule_of_an_earlier_round() {
    let prior = vec![("T".to_string(), "Y".to_string()), ("U".to_string(), "Y".to_string())];
    let t = "T".to_string();
    assert!(!is_blocked(&prior, &t, &t, &"Y".to_string()));
    assert!(is_blocked(&prior, &t, &t, &"Z".to_string()));
    assert!(is_blocked(&prior, &t, &"U".to_string(), &"Y".to_string()));
    assert!(!is_blocked(&prior, &t, &"V".to_string(), &"Z".to_string()));
}

#[test]
fn simulation_with_unknown_offering_skips_application() {
    let lists = vec![("X".to_string(), vec![rec("X", "budget", 1, 1, "A", 1, true, "5")])];
    let entries = flatten_records(&lists);
    let queue = sort_for_seating(prepare_eager_applicants(&entries));
    let offers = vec![Offering { program_name: "W".to_string(), funding_source: "budget".to_string(), available_places: 3 }];
    let seats = simulate_admission(&offers, &queue, &Vec::new(), &"A".to_string());
    assert_eq!(seats, vec![Vec::<String>::new()]);
}

#[test]
fn grouping_by_program_and_funding() {
    let lists = vec![
        (
            "P".to_string(),
            vec![
                rec("P", "budget", 1, 1, "A", 1, true, "5"),
                rec("P", "commercial", 1, 1, "B", 1, true, "5"),
                rec("P", "budget", 1, 2, "C", 1, true, "5"),
            ],
        ),
        ("Q".to_string(), Vec::new()),
        ("P".to_string(), vec![rec("P", "budget", 1, 3, "D", 1, true, "5")]),
    ];
    let analyzer = AdmissionAnalyzer::new("A");
    let grouped = analyzer.group_by_program_and_funding_public(lists);
    assert_eq!(grouped.len(), 1);
    assert_eq!(grouped[0].0, "P");
    assert_eq!(grouped[0].1.len(), 2);
    assert_eq!(grouped[0].1[0].0, "budget");
    let ids: Vec<&str> = grouped[0].1[0].1.iter().map(|r| r.snils.as_str()).collect();
    assert_eq!(ids, vec!["A", "C", "D"]);
    assert_eq!(grouped[0].1[1].0, "commercial");
    assert_eq!(grouped[0].1[1].1.len(), 1);
}

#[test]
fn target_results_per_record() {
    let lists = vec![
        ("P".to_string(), vec![rec("P", "budget", 1, 1, "A", 1, true, "90")]),
        ("Q".to_string(), vec![rec("Q", "budget", 1, 1, "a", 2, true, "90")]),
    ];
    let analyzer = AdmissionAnalyzer::new("A");
    let analysis = analyzer.analyze_all_programs(&lists);
    let (found, results) = analyzer.check_target_applicant_results(&analysis.final_admission_results, &lists);
    assert!(found);
    assert_eq!(results, vec![("P_budget".to_string(), true), ("Q_budget".to_string(), false)]);
}

#[test]
fn trace_records_every_turn() {
    let lists = vec![(
        "X".to_string(),
        vec![
            rec("X", "budget", 2, 1, "A", 1, true, "90"),
            rec("X", "budget", 2, 2, "B", 1, true, "85"),
            rec("X", "budget", 2, 3, "C", 2, true, "95"),
            rec("X", "budget", 2, 4, "D", 1, false, "99"),
        ],
    )];
    let entries = flatten_records(&lists);
    let offers = collect_offerings(&entries);
    let queue = sort_for_seating(prepare_eager_applicants(&entries));
    let order: Vec<&str> = queue.iter().map(|a| a.snils.as_str()).collect();
    assert_eq!(order, vec!["C", "A", "B"]);
    let (seats, turns) = simulate_admission_traced(&offers, &queue, &Vec::new(), &"B".to_string());
    assert_eq!(seats, vec![vec!["C".to_string(), "A".to_string()]]);
    assert_eq!(turns, vec![Turn::Seated(0), Turn::Seated(0), Turn::Unplaced]);
}

#[test]
fn seats_must_agree_within_an_offering() {
    let same = vec![rec("X", "budget", 2, 1, "A", 1, true, "5"), rec("X", "budget", 2, 2, "B", 1, true, "5")];
    assert!(capacity_consistent(&same));
    let differ = vec![rec("X", "budget", 2, 1, "A", 1, true, "5"), rec("X", "budget", 3, 2, "B", 1, true, "5")];
    assert!(!capacity_consistent(&differ));
    assert!(capacity_consistent(&Vec::new()));
}

#[test]
fn demand_order_puts_most_applicants_per_seat_first() {
    let p = calculate_program_popularity(
        &"P".to_string(),
        &"budget".to_string(),
        &vec![rec("P", "budget", 1, 1, "A", 1, true, "5"), rec("P", "budget", 1, 2, "B", 1, true, "5")],
    );
    let q = calculate_program_popularity(&"Q".to_string(), &"budget".to_string(), &vec![rec("Q", "budget", 2, 1, "C", 1, true, "5")]);
    let r = calculate_program_popularity(&"R".to_string(), &"budget".to_string(), &vec![rec("R", "budget", 0, 1, "D", 1, true, "5")]);
    let ordered = sort_by_demand(vec![r, q, p]);
    let names: Vec<&str> = ordered.iter().map(|p| p.program_name.as_str()).collect();
    assert_eq!(names, vec!["P", "Q", "R"]);
}
