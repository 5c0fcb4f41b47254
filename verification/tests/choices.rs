use decide_config::attribute::StimulusAttribute;
use decide_config::choices::CorrectChoices;
use decide_config::decide::Response;
use decide_config::stimulus::Stimulus;
use decide_config::Error;

fn values(names: &[&str]) -> Vec<StimulusAttribute> {
    names.iter().map(|n| StimulusAttribute::from(n)).collect()
}

#[test]
fn random_correctchoices() {
    let choices = vec![Response::PeckLeft, Response::PeckRight];
    let all_values = values(&["a", "b", "c", "d"]);
    let correct = CorrectChoices::random_with_choices(choices, &all_values).unwrap();
    let n_stimuli = 4;
    let n_choices = 2;
    let left_count = correct.count_response(Response::PeckLeft);
    let right_count = correct.count_response(Response::PeckRight);
    assert!(left_count <= n_stimuli / n_choices + 1);
    assert!(right_count <= n_stimuli / n_choices + 1);
}

#[test]
fn balanced_assignment_even_domain() {
    // domain of four and two choices: the counts must be exactly equal
    let choices = vec![Response::PeckLeft, Response::PeckRight];
    let all_values = values(&["a", "b", "c", "d"]);
    for _ in 0..20 {
        let correct = CorrectChoices::random_with_choices(choices.clone(), &all_values).unwrap();
        assert_eq!(correct.count_response(Response::PeckLeft), 2);
        assert_eq!(correct.count_response(Response::PeckRight), 2);
        assert_eq!(correct.count_response(Response::PeckCenter), 0);
        assert_eq!(correct.count_response(Response::Timeout), 0);
    }
}

#[test]
fn balanced_assignment_odd_domain() {
    // domain of five and two choices: the counts are three and two in
    // some order, never four and one or five and zero
    let choices = vec![Response::PeckLeft, Response::PeckRight];
    let all_values = values(&["a", "b", "c", "d", "e"]);
    for _ in 0..20 {
        let correct = CorrectChoices::random_with_choices(choices.clone(), &all_values).unwrap();
        let left = correct.count_response(Response::PeckLeft);
        let right = correct.count_response(Response::PeckRight);
        assert_eq!(left + right, 5);
        assert!(left == 2 || left == 3);
        assert!(right == 2 || right == 3);
    }
}

#[test]
fn empty_choices_rejected() {
    let all_values = values(&["a", "b"]);
    let result = CorrectChoices::random_with_choices(Vec::new(), &all_values);
    assert_eq!(result.unwrap_err(), Error::EmptyChoices);
}

#[test]
fn invert_twice_gives_back_original() {
    let entries = vec![
        (StimulusAttribute::from("a"), Response::PeckLeft),
        (StimulusAttribute::from("b"), Response::PeckRight),
        (StimulusAttribute::from("c"), Response::PeckLeft),
    ];
    let correct = CorrectChoices::from_entries(entries);
    let twice = correct.inverted().inverted();
    assert_eq!(correct, twice);
}

#[test]
fn invert_swaps_responses() {
    let entries = vec![
        (StimulusAttribute::from("a"), Response::PeckLeft),
        (StimulusAttribute::from("b"), Response::PeckRight),
    ];
    let correct = CorrectChoices::from_entries(entries);
    let inverted = correct.inverted();
    assert_eq!(inverted.entries()[0].1, Response::PeckRight);
    assert_eq!(inverted.entries()[1].1, Response::PeckLeft);
}

#[test]
fn get_reports_missing_stimulus() {
    let entries = vec![(StimulusAttribute::from("a"), Response::PeckLeft)];
    let correct = CorrectChoices::from_entries(entries);
    let label = decide_config::attribute::AttributeLabel::from("kind");
    let hit = Stimulus::new(
        vec![(label.clone(), StimulusAttribute::from("a"))],
        decide_config::attribute::AttributeLabel::from("kind"),
    );
    assert_eq!(*correct.get(&hit).unwrap(), Response::PeckLeft);
    let miss = Stimulus::new(
        vec![(
            decide_config::attribute::AttributeLabel::from("kind"),
            StimulusAttribute::from("z"),
        )],
        decide_config::attribute::AttributeLabel::from("kind"),
    );
    match correct.get(&miss) {
        Err(Error::StimMissingFromCorrectChoices(v)) => {
            assert_eq!(v, StimulusAttribute::from("z"));
        },
        other => panic!("expected a missing-stimulus error, got {:?}", other),
    }
}
