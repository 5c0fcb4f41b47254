use decide_config::attribute::{AttributeLabel, StimulusAttribute};
use decide_config::choices::CorrectChoices;
use decide_config::decide::{
    DecideConfig, Decimal, Outcome, Response, ResponseMeaning, StimulusConfig,
    DECIMAL_DENOMINATOR,
};
use decide_config::experiment::{Experiment, ExperimentConfig};
use decide_config::make_configs;
use decide_config::stimulus::{AttributeConfig, StimuliConfig};
use decide_config::Error;

#[test]
fn deserialize_decimal() {
    let f: Decimal = Decimal::from_text("1.0").unwrap();
    assert_eq!(f.raw() as f64 / DECIMAL_DENOMINATOR as f64, 1.0);
}

#[test]
fn serialize_decimal() {
    let f: Decimal = Decimal::one();
    assert_eq!(f.to_text(), "1.0");
}

#[test]
fn deserialize_outcome() {
    let _out: Outcome = Outcome::decode(
        "
        {
            \"p_reward\": 1.0,
            \"p_punish\": 0.0,
            \"correct\": false
        }
        ",
    )
    .unwrap();
}

#[test]
fn decimal_text_round_trip() {
    for raw in [0i32, 1, -1, 4096, -4096, 2048, 12345, -98765, i32::MAX, i32::MIN] {
        let d = Decimal::from_raw(raw);
        let text = d.to_text();
        assert_eq!(Decimal::from_text(&text).unwrap(), d, "text was {}", text);
    }
    assert_eq!(Decimal::from_text("0.5").unwrap(), Decimal::from_raw(2048));
    assert_eq!(Decimal::from_text("-0.5").unwrap(), Decimal::from_raw(-2048));
    assert!(Decimal::from_text("0.1").is_none());
    assert!(Decimal::from_text("nope").is_none());
}

#[test]
fn outcome_text_round_trip() {
    let outcomes = [
        Outcome { p_reward: Some(Decimal::one()), p_punish: None, correct: true },
        Outcome { p_reward: None, p_punish: Some(Decimal::one()), correct: false },
        Outcome { p_reward: None, p_punish: None, correct: false },
        Outcome {
            p_reward: Some(Decimal::from_raw(2048)),
            p_punish: Some(Decimal::from_raw(1024)),
            correct: true,
        },
    ];
    for o in outcomes {
        let text: String = o.encode().into_iter().collect();
        assert_eq!(Outcome::decode(&text).unwrap(), o, "text was {}", text);
    }
}

#[test]
fn outcome_from_meaning() {
    let correct = Outcome::from(ResponseMeaning::Correct);
    assert_eq!(correct.p_reward, Some(Decimal::one()));
    assert_eq!(correct.p_punish, None);
    assert!(correct.correct);
    let incorrect = Outcome::from(ResponseMeaning::Incorrect);
    assert_eq!(incorrect.p_reward, None);
    assert_eq!(incorrect.p_punish, Some(Decimal::one()));
    assert!(!incorrect.correct);
    let neutral = Outcome::from(ResponseMeaning::Neutral);
    assert_eq!(neutral.p_reward, None);
    assert_eq!(neutral.p_punish, None);
    assert!(!neutral.correct);
}

fn stimulus_entry(name: &str, correct_response: Response) -> StimulusConfig {
    let stim = decide_config::stimulus::Stimulus::new(
        vec![(AttributeLabel::from("kind"), StimulusAttribute::from(name))],
        AttributeLabel::from("kind"),
    );
    let choices = CorrectChoices::from_entries(vec![(
        StimulusAttribute::from(name),
        correct_response,
    )]);
    StimulusConfig::from(&stim, &choices, "{kind}").unwrap()
}

#[test]
fn stimulus_config_marks_correct_response() {
    let entry = stimulus_entry("x", Response::PeckLeft);
    assert_eq!(entry.name, "x");
    assert_eq!(entry.frequency, 1);
    assert_eq!(entry.category, None);
    assert_eq!(entry.responses.len(), 4);
    for (response, outcome) in &entry.responses {
        if *response == Response::PeckLeft {
            assert!(outcome.correct);
            assert_eq!(outcome.p_reward, Some(Decimal::one()));
        } else {
            assert!(!outcome.correct);
            assert_eq!(outcome.p_punish, Some(Decimal::one()));
        }
    }
}

#[test]
fn documents_compare_structurally() {
    // the same entries in a different order compare equal
    let a = DecideConfig::new(
        vec![
            stimulus_entry("x", Response::PeckLeft),
            stimulus_entry("y", Response::PeckRight),
        ],
        String::from("/"),
        String::from("null"),
    );
    let b = DecideConfig::new(
        vec![
            stimulus_entry("y", Response::PeckRight),
            stimulus_entry("x", Response::PeckLeft),
        ],
        String::from("/"),
        String::from("null"),
    );
    assert!(a.same_document(&b));
    assert!(b.same_document(&a));
    // flipping one correctness assignment makes them compare unequal
    let c = DecideConfig::new(
        vec![
            stimulus_entry("x", Response::PeckRight),
            stimulus_entry("y", Response::PeckRight),
        ],
        String::from("/"),
        String::from("null"),
    );
    assert!(!a.same_document(&c));
    assert!(!c.same_document(&a));
}

#[test]
fn duplicate_names_are_dropped() {
    let doc = DecideConfig::new(
        vec![
            stimulus_entry("x", Response::PeckLeft),
            stimulus_entry("x", Response::PeckRight),
        ],
        String::from("/"),
        String::from("null"),
    );
    assert_eq!(doc.stimuli.len(), 1);
}

fn small_experiment() -> Experiment {
    let stimuli = StimuliConfig::new(
        String::from("{kind}_{vol}"),
        "kind",
        vec![
            (
                AttributeLabel::from("kind"),
                AttributeConfig::new(
                    vec![StimulusAttribute::from("x"), StimulusAttribute::from("y")],
                    false,
                ),
            ),
            (
                AttributeLabel::from("vol"),
                AttributeConfig::new(
                    vec![StimulusAttribute::numeric(1), StimulusAttribute::numeric(2)],
                    false,
                ),
            ),
        ],
    )
    .unwrap();
    let decide = ExperimentConfig {
        parameters: String::from("{\"p\":1}"),
        name_format: String::from("{vol}"),
        stimulus_root: String::from("/stims"),
        choices: (Response::PeckLeft, Response::PeckRight),
        stimuli_subsets: None,
    };
    Experiment::new(decide, stimuli).unwrap()
}

fn small_choices() -> CorrectChoices {
    CorrectChoices::from_entries(vec![
        (StimulusAttribute::from("x"), Response::PeckLeft),
        (StimulusAttribute::from("y"), Response::PeckRight),
    ])
}

#[test]
fn make_configs_generates_one_document_per_triple() {
    let experiment = small_experiment();
    let correct = small_choices();
    let configs = make_configs(&experiment, &correct).unwrap();
    // one subset, two held-constant bindings, two inversion flags
    assert_eq!(configs.len(), 4);
    for (doc, attrs) in &configs {
        assert_eq!(doc.parameters, "{\"p\":1}");
        assert_eq!(doc.stimulus_root, "/stims");
        // each document holds the two stimuli of one volume
        assert_eq!(doc.stimuli.len(), 2);
        // naming bindings carry the volume, the subset, and the flag
        assert_eq!(attrs.len(), 3);
        assert_eq!(attrs[1].0, AttributeLabel::from("set"));
        assert_eq!(attrs[1].1, StimulusAttribute::from("All"));
        assert_eq!(attrs[2].0, AttributeLabel::from("inverted"));
    }
    // the first document of each pair is the inverted one
    assert_eq!(configs[0].1[2].1, StimulusAttribute::from("Yes"));
    assert_eq!(configs[1].1[2].1, StimulusAttribute::from("No"));
    // in the base document, stimulus x_1 is rewarded on the left
    let (base_doc, _) = &configs[1];
    let x1 = base_doc.stimuli.iter().find(|s| s.name == "x_1").unwrap();
    let left = x1.responses.iter().find(|p| p.0 == Response::PeckLeft).unwrap();
    assert!(left.1.correct);
    // in the inverted document, stimulus x_1 is rewarded on the right
    let (inv_doc, _) = &configs[0];
    let x1i = inv_doc.stimuli.iter().find(|s| s.name == "x_1").unwrap();
    let lefti = x1i.responses.iter().find(|p| p.0 == Response::PeckLeft).unwrap();
    assert!(!lefti.1.correct);
    let righti = x1i.responses.iter().find(|p| p.0 == Response::PeckRight).unwrap();
    assert!(righti.1.correct);
}

#[test]
fn make_configs_reports_missing_assignment() {
    let experiment = small_experiment();
    let partial = CorrectChoices::from_entries(vec![
        (StimulusAttribute::from("x"), Response::PeckLeft),
        (StimulusAttribute::from("q"), Response::PeckRight),
    ]);
    match make_configs(&experiment, &partial) {
        Err(Error::StimMissingFromCorrectChoices(v)) => {
            assert_eq!(v, StimulusAttribute::from("y"));
        },
        other => panic!("expected a missing-stimulus error, got {:?}", other),
    }
}

#[test]
fn random_assignment_covers_experiment_domain() {
    let experiment = small_experiment();
    let correct = CorrectChoices::random(&experiment).unwrap();
    assert_eq!(correct.entries().len(), 2);
    let configs = make_configs(&experiment, &correct).unwrap();
    assert_eq!(configs.len(), 4);
}

#[test]
fn format_name_substitutes_bound_values() {
    let bindings = vec![
        (AttributeLabel::from("vol"), StimulusAttribute::numeric(2)),
        (AttributeLabel::from("set"), StimulusAttribute::from("All")),
        (AttributeLabel::from("inverted"), StimulusAttribute::from("No")),
    ];
    let name =
        decide_config::format_name("{vol}-set{set}-inverted{inverted}.json", &bindings).unwrap();
    assert_eq!(name, "2-setAll-invertedNo.json");
    assert_eq!(
        decide_config::format_name("{oops}", &bindings).unwrap_err(),
        Error::Format
    );
}

#[test]
fn document_text_round_trip() {
    let doc = DecideConfig::new(
        vec![
            stimulus_entry("x", Response::PeckLeft),
            stimulus_entry("y", Response::PeckRight),
        ],
        String::from("/stims"),
        String::from("{\"p\": 1}"),
    );
    let text: String = doc.encode_document().into_iter().collect();
    let decoded = decide_config::codec::decode_document(&text).unwrap();
    assert_eq!(doc, decoded);
    assert!(doc.same_document(&decoded));
}

#[test]
fn document_round_trip_keeps_categories() {
    let mut entry = stimulus_entry("x", Response::PeckLeft);
    entry.category = Some(StimulusAttribute::numeric(-3));
    let mut entry2 = stimulus_entry("y", Response::PeckRight);
    entry2.category = Some(StimulusAttribute::from("song: a"));
    let doc = DecideConfig::new(
        vec![entry, entry2],
        String::from(""),
        String::from("null"),
    );
    let text: String = doc.encode_document().into_iter().collect();
    let decoded = decide_config::codec::decode_document(&text).unwrap();
    assert_eq!(doc, decoded);
}
