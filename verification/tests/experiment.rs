use decide_config::attribute::{AttributeLabel, StimulusAttribute};
use decide_config::decide::Response;
use decide_config::experiment::{Experiment, ExperimentConfig};
use decide_config::stimulus::{AttributeConfig, StimuliConfig};
use decide_config::Error;

fn stimuli_config() -> StimuliConfig {
    StimuliConfig::new(
        String::from("{kind}"),
        "kind",
        vec![(
            AttributeLabel::from("kind"),
            AttributeConfig::new(
                vec![
                    StimulusAttribute::from("x"),
                    StimulusAttribute::from("y"),
                    StimulusAttribute::from("z"),
                ],
                false,
            ),
        )],
    )
    .unwrap()
}

fn decide_config(
    subsets: Option<Vec<(String, Vec<StimulusAttribute>)>>,
) -> ExperimentConfig {
    ExperimentConfig {
        parameters: String::from("null"),
        name_format: String::from("{kind}"),
        stimulus_root: String::from("/"),
        choices: (Response::PeckLeft, Response::PeckRight),
        stimuli_subsets: subsets,
    }
}

#[test]
fn named_args() {
    let exp = ExperimentConfig {
        parameters: String::new(),
        name_format: String::from("{a}{b}{c}"),
        stimulus_root: String::from("/"),
        choices: (Response::PeckLeft, Response::PeckRight),
        stimuli_subsets: None,
    };
    let named_args = exp.named_args().unwrap();
    assert_eq!(named_args, vec!["a", "b", "c"]);
}

#[test]
fn named_args_rejects_unclosed_placeholder() {
    let exp = ExperimentConfig {
        parameters: String::new(),
        name_format: String::from("{a}{b"),
        stimulus_root: String::from("/"),
        choices: (Response::PeckLeft, Response::PeckRight),
        stimuli_subsets: None,
    };
    assert_eq!(exp.named_args().unwrap_err(), Error::Format);
}

#[test]
fn subset_inside_domain_accepted() {
    let subsets = Some(vec![(
        String::from("first"),
        vec![StimulusAttribute::from("x"), StimulusAttribute::from("y")],
    )]);
    let experiment = Experiment::new(decide_config(subsets), stimuli_config());
    assert!(experiment.is_ok());
}

#[test]
fn subset_outside_domain_rejected_by_name() {
    let subsets = Some(vec![(
        String::from("bad"),
        vec![StimulusAttribute::from("x"), StimulusAttribute::from("w")],
    )]);
    let experiment = Experiment::new(decide_config(subsets), stimuli_config());
    assert_eq!(experiment.unwrap_err(), Error::NotASubset(String::from("bad")));
}

#[test]
fn default_subset_holds_every_stimulus() {
    let experiment = Experiment::new(decide_config(None), stimuli_config()).unwrap();
    let subsets = experiment.stimuli_subsets();
    assert_eq!(subsets.len(), 1);
    assert_eq!(subsets[0].0, "All");
    assert_eq!(subsets[0].1.len(), 3);
}

#[test]
fn declared_subsets_filter_by_decisive_value() {
    let subsets = Some(vec![(
        String::from("pair"),
        vec![StimulusAttribute::from("x"), StimulusAttribute::from("z")],
    )]);
    let experiment = Experiment::new(decide_config(subsets), stimuli_config()).unwrap();
    let resolved = experiment.stimuli_subsets();
    assert_eq!(resolved.len(), 1);
    assert_eq!(resolved[0].0, "pair");
    assert_eq!(resolved[0].1.len(), 2);
}

#[test]
fn resolving_unknown_template_attribute_fails() {
    let mut decide = decide_config(None);
    decide.name_format = String::from("{nope}");
    let experiment = Experiment::new(decide, stimuli_config()).unwrap();
    assert_eq!(
        experiment.named_args().unwrap_err(),
        Error::UnknownAttributeInNameFormat(String::from("nope"))
    );
}

#[test]
fn experiment_getters() {
    let experiment = Experiment::new(decide_config(None), stimuli_config()).unwrap();
    assert_eq!(experiment.name_format(), "{kind}");
    assert_eq!(experiment.decide_parameters(), "null");
    assert_eq!(experiment.stimulus_root(), "/");
    assert_eq!(
        experiment.choices(),
        vec![Response::PeckLeft, Response::PeckRight]
    );
    assert_eq!(*experiment.decisive_attribute(), AttributeLabel::from("kind"));
    assert_eq!(experiment.stimuli().len(), 3);
    let domain = experiment
        .list_attribute_values(&AttributeLabel::from("kind"))
        .unwrap();
    assert_eq!(domain.len(), 3);
}
