use quiz_engine::estimator::MasteryState;
use quiz_engine::questions::RunnerData;
use quiz_engine::service::{sort_answers, Answer, Question, QuestionSet, Selection, Service};

fn question(id: i64, factory: &str, name: &str) -> Question {
    Question {
        id,
        factory: factory.to_string(),
        name: name.to_string(),
        created_at: 0,
        num_correct: 0,
        num_incorrect: 0,
        runner: RunnerData::Default {
            question: format!("{}?", name),
            answers: vec![name.to_string()],
        },
        state: MasteryState::new(),
        answers: Vec::new(),
    }
}

fn membership(id: i64, set: &str, question_id: i64) -> QuestionSet {
    QuestionSet { id, name: set.to_string(), question_id }
}

fn sample_service() -> Service {
    let questions = vec![
        question(1, "caps", "capital of France"),
        question(2, "caps", "capital of Italy"),
        question(3, "verbs", "to run"),
    ];
    let answers = sort_answers(vec![
        Answer { question_id: 1, time: 100, correct: true },
        Answer { question_id: 1, time: 300, correct: true },
        Answer { question_id: 2, time: 200, correct: false },
        Answer { question_id: 1, time: 400, correct: false },
    ]);
    let memberships = vec![
        membership(1, "europe", 1),
        membership(2, "europe", 2),
        membership(3, "all", 1),
        membership(4, "all", 2),
        membership(5, "all", 3),
    ];
    Service::new(questions, answers, memberships)
}

#[test]
fn rebuild_replays_history_in_time_order() {
    let s = sample_service();
    // question 1 saw correct, correct, incorrect: weighted pair 1.71 / 2.71
    let q = s.get(1);
    assert_eq!(q.answers.len(), 3);
    assert_eq!(q.answers[0].time, 100);
    assert_eq!(q.answers[2].time, 400);
    assert_eq!(q.state.weighted_total, 2_710_000);
    assert_eq!(q.state.weighted_correct, 1_710_000);
    // question 3 was never answered
    assert_eq!(s.get(3).answers.len(), 0);
    assert_eq!(s.get(3).state.weighted_total, 0);
}

#[test]
fn sets_group_membership_rows() {
    let s = sample_service();
    assert_eq!(s.get_set("europe"), &vec![1, 2]);
    assert_eq!(s.get_set("all"), &vec![1, 2, 3]);
    let names = s.get_sets();
    assert_eq!(names, vec!["europe".to_string(), "all".to_string()]);
}

#[test]
fn factories_group_questions() {
    let s = sample_service();
    assert_eq!(s.get_factory("caps"), &vec![1, 2]);
    assert_eq!(s.get_factory("verbs"), &vec![3]);
}

#[test]
fn practiced_filter_drops_fresh_questions() {
    let s = sample_service();
    assert_eq!(s.get_set_size("all", Selection::All), 3);
    assert_eq!(s.get_set_size("all", Selection::Practiced), 2);
    let practiced = s.filter_questions(s.get_set("all"), Selection::Practiced);
    assert_eq!(practiced, vec![1, 2]);
}

#[test]
fn bottom_selection_surfaces_the_weakest() {
    let s = sample_service();
    // estimates: q1 = 1.71/2.71 (about 0.63), q2 = 0/1.0, q3 = 1/2 (never answered)
    assert_eq!(s.get_bottom_selection("all", 3, Selection::All), vec![2, 3, 1]);
    assert_eq!(s.get_bottom_selection("all", 1, Selection::All), vec![2]);
}

#[test]
fn random_selections_draw_from_the_set() {
    let s = sample_service();
    for _ in 0..20 {
        let mut w = s.get_weighted_random_selection("all", 3, Selection::All);
        w.sort();
        assert_eq!(w, vec![1, 2, 3]);
        let mut u = s.get_uniform_random_selection("europe", 5, Selection::All);
        u.sort();
        assert_eq!(u, vec![1, 2]);
        let one = s.get_weighted_random_selection("all", 1, Selection::All);
        assert!(one.len() == 1 && vec![1i64, 2, 3].contains(&one[0]));
    }
}

#[test]
fn oldest_selection_puts_stale_and_fresh_first() {
    let s = sample_service();
    // q3 never answered, q2 last answered at 200, q1 at 400
    assert_eq!(s.get_oldest_answer("all", 3, Selection::All), vec![3, 2, 1]);
}

#[test]
fn add_answer_updates_state_and_history() {
    let mut s = sample_service();
    let est = s.add_answer(3, true, 1_000);
    assert_eq!(est.num, 1_000_000);
    assert_eq!(est.den, 1_000_000);
    let q = s.get(3);
    assert_eq!(q.answers.len(), 1);
    assert_eq!(q.num_correct, 1);
    assert_eq!(q.num_incorrect, 0);
    let est2 = s.add_answer(3, false, 2_000);
    assert_eq!(est2.num, 900_000);
    assert_eq!(est2.den, 1_900_000);
    assert_eq!(s.get(3).num_incorrect, 1);
    assert_eq!(s.last_answer(3), Some(Answer { question_id: 3, time: 2_000, correct: false }));
}

#[test]
fn add_question_in_set_creates_and_deduplicates() {
    let mut s = sample_service();
    assert!(s.add_question_in_set(3, "europe"));
    assert_eq!(s.get_set("europe"), &vec![1, 2, 3]);
    assert!(!s.add_question_in_set(3, "europe"));
    assert_eq!(s.get_set("europe"), &vec![1, 2, 3]);
    assert!(s.add_question_in_set(2, "fresh"));
    assert_eq!(s.get_set("fresh"), &vec![2]);
}

#[test]
fn sort_answers_orders_by_time() {
    let sorted = sort_answers(vec![
        Answer { question_id: 1, time: 30, correct: true },
        Answer { question_id: 2, time: 10, correct: false },
        Answer { question_id: 3, time: 20, correct: true },
    ]);
    let times: Vec<i64> = sorted.iter().map(|a| a.time).collect();
    assert_eq!(times, vec![10, 20, 30]);
}

#[test]
fn guards_report_what_exists() {
    let s = sample_service();
    assert!(s.contains_question(1));
    assert!(!s.contains_question(99));
    assert!(s.contains_set("all"));
    assert!(!s.contains_set("nowhere"));
    assert!(s.contains_factory("caps"));
    assert!(!s.contains_factory("nope"));
}
