use decide_config::attribute::{AttributeLabel, StimulusAttribute};
use decide_config::stimulus::{filter_by_attributes, AttributeConfig, Stimulus, StimuliConfig};
use decide_config::Error;

fn space() -> StimuliConfig {
    // two attributes: a decisive category and a numeric level with
    // inclusive-less-than matching
    StimuliConfig::new(
        String::from("{kind}_{level}"),
        "kind",
        vec![
            (
                AttributeLabel::from("kind"),
                AttributeConfig::new(
                    vec![StimulusAttribute::from("x"), StimulusAttribute::from("y")],
                    false,
                ),
            ),
            (
                AttributeLabel::from("level"),
                AttributeConfig::new(
                    vec![
                        StimulusAttribute::numeric(1),
                        StimulusAttribute::numeric(2),
                        StimulusAttribute::numeric(3),
                    ],
                    true,
                ),
            ),
        ],
    )
    .unwrap()
}

#[test]
fn serialize_stimulus() {
    let attributes: Vec<(AttributeLabel, StimulusAttribute)> = vec![("a", "hi"), ("b", "hello")]
        .into_iter()
        .map(|(k, v)| (AttributeLabel::from(k), StimulusAttribute::from(v)))
        .collect();
    let decisive_attribute = AttributeLabel::from("a");
    let stim = Stimulus::new(attributes, decisive_attribute);
    assert_eq!(*stim.decisive_attribute(), StimulusAttribute::from("hi"));
    let format = String::from("{a} {b}");
    assert_eq!(stim.render(&format).unwrap(), "hi hello");
}

#[test]
fn render_fails_on_undeclared_label() {
    let stim = Stimulus::new(
        vec![(AttributeLabel::from("a"), StimulusAttribute::from("hi"))],
        AttributeLabel::from("a"),
    );
    assert_eq!(stim.render("{a}{missing}").unwrap_err(), Error::Format);
}

#[test]
fn enumerate_full_space() {
    let config = space();
    let stimuli = config.stimuli();
    assert_eq!(stimuli.len(), 6);
    let names: Vec<String> = stimuli
        .iter()
        .map(|s| s.render(&config.format).unwrap())
        .collect();
    assert_eq!(
        names,
        vec!["x_1", "x_2", "x_3", "y_1", "y_2", "y_3"]
    );
}

#[test]
fn matches_equality_and_threshold() {
    let config = space();
    let stimuli = config.stimuli();
    let kind = AttributeLabel::from("kind");
    let level = AttributeLabel::from("level");
    // x_2
    let stim = &stimuli[1];
    assert!(stim.matches(&kind, &StimulusAttribute::from("x"), false));
    assert!(!stim.matches(&kind, &StimulusAttribute::from("y"), false));
    assert!(stim.matches(&level, &StimulusAttribute::numeric(2), true));
    assert!(stim.matches(&level, &StimulusAttribute::numeric(3), true));
    assert!(!stim.matches(&level, &StimulusAttribute::numeric(1), true));
    assert!(!stim.matches(&AttributeLabel::from("absent"), &StimulusAttribute::from("x"), false));
}

#[test]
fn filter_with_empty_bindings_keeps_everything() {
    let config = space();
    let stimuli = config.stimuli();
    let kept = filter_by_attributes(&config, &stimuli, &Vec::new());
    assert_eq!(kept.len(), stimuli.len());
    assert_eq!(kept, stimuli);
}

#[test]
fn filter_with_absent_label_keeps_nothing() {
    let config = space();
    // stimuli that lack the declared "level" attribute entirely
    let stimuli = vec![Stimulus::new(
        vec![(AttributeLabel::from("kind"), StimulusAttribute::from("x"))],
        AttributeLabel::from("kind"),
    )];
    let bindings = vec![(AttributeLabel::from("level"), StimulusAttribute::numeric(1))];
    let kept = filter_by_attributes(&config, &stimuli, &bindings);
    assert_eq!(kept.len(), 0);
}

#[test]
fn filter_by_threshold() {
    let config = space();
    let stimuli = config.stimuli();
    let bindings = vec![(AttributeLabel::from("level"), StimulusAttribute::numeric(2))];
    let kept = filter_by_attributes(&config, &stimuli, &bindings);
    // levels one and two pass the inclusive threshold, level three does not
    assert_eq!(kept.len(), 4);
}

#[test]
fn decisive_attribute_must_be_declared() {
    let result = StimuliConfig::new(
        String::from("{a}"),
        "missing",
        vec![(
            AttributeLabel::from("a"),
            AttributeConfig::new(vec![StimulusAttribute::from("v")], false),
        )],
    );
    assert_eq!(result.unwrap_err(), Error::DecisiveAttributeNotFound);
}

#[test]
fn label_lookup() {
    let config = space();
    assert!(config.label_by_str("kind").is_some());
    assert!(config.label_by_str("nope").is_none());
    let variants = config.list_variants(&AttributeLabel::from("kind")).unwrap();
    assert_eq!(
        variants,
        vec![StimulusAttribute::from("x"), StimulusAttribute::from("y")]
    );
    assert_eq!(config.attribute_labels().len(), 2);
    assert_eq!(*config.decisive_attribute(), AttributeLabel::from("kind"));
}
