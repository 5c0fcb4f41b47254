//! Turns a compact description of a behavioral-experiment stimulus space
//! into configuration documents for an experiment-control runtime: the
//! attribute domains are enumerated into stimuli, each stimulus receives
//! a correct response through a balanced random assignment, and one
//! document is generated per combination of stimulus subset, held-constant
//! attribute binding, and inversion flag.
use vstd::prelude::*;

pub mod attribute;
pub mod choices;
pub mod codec;
pub mod decide;
pub mod experiment;
pub mod numtext;
pub mod product;
pub mod stimulus;
pub mod template;
pub mod text;

use attribute::{AttributeLabel, AttributeValue, StimulusAttribute};
use choices::{invert_choices, lookup_choice, CorrectChoices};
use decide::{
    dedup_by_name, response_table, DecideConfig, DecideConfigValue, Response, StimulusConfig,
    StimulusConfigValue,
};
use experiment::{subsets_spec, Experiment, ExperimentValue};
use product::{lemma_product_elem, product};
use stimulus::{
    config_labels, config_lists, filter_by_attributes, filtered_stimuli, labels_unique,
    lemma_contains_lookup, lemma_filter_elem, lemma_space_stimulus, lemma_unique_lookup,
    lookup_attr, lookup_config, render_bindings, stimuli_space, zip_attrs, AttributeConfigValue,
    Stimulus, StimulusValue,
};
use template::{format_template, template_args};

verus! {

/// Mathematical value of an `Error`.
pub enum ErrorValue {
    DecisiveAttributeNotFound,
    Format,
    StimMissingFromCorrectChoices(AttributeValue),
    EmptyChoices,
    UnknownAttributeInNameFormat(Seq<char>),
    NotASubset(Seq<char>),
}

/// Why an experiment description was rejected or a batch of configuration
/// documents could not be generated.
#[derive(Debug, Clone, PartialEq)]
pub enum Error {
    /// The attribute listed for `decisive_attribute` was not found.
    DecisiveAttributeNotFound,
    /// A name template could not be parsed or a placeholder resolved.
    Format,
    /// A stimulus's decisive value has no entry in the correct choices.
    StimMissingFromCorrectChoices(StimulusAttribute),
    /// The list of choices provided in the experiment should not be empty.
    EmptyChoices,
    /// The name template references an attribute that is not declared.
    UnknownAttributeInNameFormat(String),
    /// A declared subset is not a subset of the decisive domain.
    NotASubset(String),
}

impl View for Error {
    type V = ErrorValue;

    open spec fn view(&self) -> ErrorValue {
        match self {
            Error::DecisiveAttributeNotFound => ErrorValue::DecisiveAttributeNotFound,
            Error::Format => ErrorValue::Format,
            Error::StimMissingFromCorrectChoices(a) => ErrorValue::StimMissingFromCorrectChoices(
                a@,
            ),
            Error::EmptyChoices => ErrorValue::EmptyChoices,
            Error::UnknownAttributeInNameFormat(s) => ErrorValue::UnknownAttributeInNameFormat(
                s@,
            ),
            Error::NotASubset(s) => ErrorValue::NotASubset(s@),
        }
    }
}

/// The declared attributes whose label the output name template
/// references, in declaration order.
pub open spec fn participating(e: ExperimentValue) -> Seq<(Seq<char>, AttributeConfigValue)> {
    e.stimuli.values.filter(
        |p: (Seq<char>, AttributeConfigValue)|
            template_args(e.decide.name_format).unwrap().contains(p.0),
    )
}

/// The held-constant value combinations: the cartesian product of the
/// participating domains, or a single empty combination when the product
/// is empty.
pub open spec fn binding_combos(e: ExperimentValue) -> Seq<Seq<AttributeValue>> {
    let raw = product(config_lists(participating(e)));
    if raw.len() == 0 {
        seq![Seq::empty()]
    } else {
        raw
    }
}

/// The held-constant binding of one combination: each participating label
/// bound to the combination's value for it.
pub open spec fn binding_at(e: ExperimentValue, bi: int) -> Seq<(Seq<char>, AttributeValue)> {
    let combo = binding_combos(e)[bi];
    zip_attrs(config_labels(participating(e)).take(combo.len() as int), combo)
}

/// The stimuli of one document: the subset's stimuli that match the
/// held-constant binding.
pub open spec fn included_stimuli(e: ExperimentValue, si: int, bi: int) -> Seq<StimulusValue> {
    filtered_stimuli(e.stimuli, subsets_spec(e)[si].1, binding_at(e, bi))
}

/// The mapping a document is built against: the base mapping, or its
/// inverse.
pub open spec fn active_choices(
    cc: Seq<(AttributeValue, Response)>,
    inverted: bool,
) -> Seq<(AttributeValue, Response)> {
    if inverted {
        invert_choices(cc)
    } else {
        cc
    }
}

/// One stimulus's document entry under the active mapping.
pub open spec fn entry_value(
    st: StimulusValue,
    active: Seq<(AttributeValue, Response)>,
    format: Seq<char>,
) -> StimulusConfigValue {
    StimulusConfigValue {
        name: format_template(format, render_bindings(st.attributes)).unwrap(),
        frequency: 1,
        responses: response_table(
            lookup_choice(active, lookup_attr(st.attributes, st.decisive).unwrap()).unwrap(),
        ),
        category: None,
    }
}

/// The document generated for one (subset, binding, inversion) triple.
pub open spec fn doc_value(
    e: ExperimentValue,
    cc: Seq<(AttributeValue, Response)>,
    si: int,
    bi: int,
    inverted: bool,
) -> DecideConfigValue {
    DecideConfigValue {
        parameters: e.decide.parameters,
        stimulus_root: e.decide.stimulus_root,
        stimuli: dedup_by_name(
            included_stimuli(e, si, bi).map_values(
                |st: StimulusValue| entry_value(st, active_choices(cc, inverted), e.stimuli.format),
            ),
        ),
    }
}

/// The naming bindings of one document: the held-constant binding plus
/// the subset's name and the inversion flag.
pub open spec fn attrs_value(e: ExperimentValue, si: int, bi: int, inverted: bool) -> Seq<
    (Seq<char>, AttributeValue),
> {
    binding_at(e, bi) + seq![
        ("set"@, AttributeValue::Text(subsets_spec(e)[si].0)),
        (
            "inverted"@,
            AttributeValue::Text(
                if inverted {
                    "Yes"@
                } else {
                    "No"@
                },
            ),
        ),
    ]
}

/// One generated (document, naming bindings) pair.
pub open spec fn config_pair(
    e: ExperimentValue,
    cc: Seq<(AttributeValue, Response)>,
    si: int,
    bi: int,
    inverted: bool,
) -> (DecideConfigValue, Seq<(Seq<char>, AttributeValue)>) {
    (doc_value(e, cc, si, bi, inverted), attrs_value(e, si, bi, inverted))
}

/// The documents of one subset from combination `bi` on: for each
/// combination, the inverted document first, then the base one.
pub open spec fn combo_docs(
    e: ExperimentValue,
    cc: Seq<(AttributeValue, Response)>,
    si: int,
    bi: int,
) -> Seq<(DecideConfigValue, Seq<(Seq<char>, AttributeValue)>)>
    decreases binding_combos(e).len() - bi,
{
    if bi < 0 || bi >= binding_combos(e).len() {
        Seq::empty()
    } else {
        seq![config_pair(e, cc, si, bi, true), config_pair(e, cc, si, bi, false)] + combo_docs(
            e,
            cc,
            si,
            bi + 1,
        )
    }
}

/// Every generated document from subset `si` on, in generation order.
pub open spec fn docs_from(
    e: ExperimentValue,
    cc: Seq<(AttributeValue, Response)>,
    si: int,
) -> Seq<(DecideConfigValue, Seq<(Seq<char>, AttributeValue)>)>
    decreases subsets_spec(e).len() - si,
{
    if si < 0 || si >= subsets_spec(e).len() {
        Seq::empty()
    } else {
        combo_docs(e, cc, si, 0) + docs_from(e, cc, si + 1)
    }
}

/// Whether one stimulus can be given a document entry: it has an assigned
/// response under the mapping and under its inverse, and its name
/// renders.
pub open spec fn stim_ok(
    e: ExperimentValue,
    cc: Seq<(AttributeValue, Response)>,
    st: StimulusValue,
) -> bool {
    &&& lookup_choice(cc, lookup_attr(st.attributes, st.decisive).unwrap()) is Some
    &&& lookup_choice(invert_choices(cc), lookup_attr(st.attributes, st.decisive).unwrap()) is Some
    &&& format_template(e.stimuli.format, render_bindings(st.attributes)) is Some
}

/// Whether the output name template parses and references only declared
/// attributes.
pub open spec fn names_ok(e: ExperimentValue) -> bool {
    &&& template_args(e.decide.name_format) is Some
    &&& forall|i: int|
        0 <= i < template_args(e.decide.name_format).unwrap().len() ==> lookup_config(
            e.stimuli.values,
            #[trigger] template_args(e.decide.name_format).unwrap()[i],
        ) is Some
}

/// Whether the whole batch generates without error.
pub open spec fn generation_ok(e: ExperimentValue, cc: Seq<(AttributeValue, Response)>) -> bool {
    &&& names_ok(e)
    &&& forall|si: int, bi: int, t: int|
        0 <= si < subsets_spec(e).len() && 0 <= bi < binding_combos(e).len() && 0 <= t
            < included_stimuli(e, si, bi).len() ==> stim_ok(
            e,
            cc,
            #[trigger] included_stimuli(e, si, bi)[t],
        )
}

/// Whether every attribute matched with inclusive-less-than semantics has
/// an all-numeric domain, so that no comparison orders a non-numeric
/// value.
pub open spec fn le_compatible(values: Seq<(Seq<char>, AttributeConfigValue)>) -> bool {
    forall|i: int, j: int|
        0 <= i < values.len() && 0 <= j < (#[trigger] values[i]).1.values.len()
            && values[i].1.inclusive_less_than ==> (#[trigger] values[i].1.values[j]) is Numeric
}

/// The name formatter: the template with every `{label}` replaced by the
/// bound value's text form; unresolved placeholders and malformed
/// templates are format errors.
pub fn format_name(template: &str, bindings: &Vec<(AttributeLabel, StimulusAttribute)>) -> (r:
    Result<String, Error>)
    ensures
        match r {
            Ok(s) => format_template(template@, render_bindings(bindings.deep_view())) == Some(
                s@,
            ),
            Err(e) => e == Error::Format && format_template(
                template@,
                render_bindings(bindings.deep_view()),
            ) is None,
        },
{
    let mut pairs: Vec<(String, String)> = Vec::new();
    let mut i: usize = 0;
    while i < bindings.len()
        invariant
            i <= bindings@.len(),
            pairs@.len() == i,
            pairs.deep_view() == render_bindings(bindings.deep_view().take(i as int)),
        decreases bindings@.len() - i,
    {
        let label = bindings[i].0.text().to_owned();
        let value = bindings[i].1.to_text();
        let ghost prevd = pairs.deep_view();
        pairs.push((label, value));
        i += 1;
        proof {
            let pd = pairs.deep_view();
            let target = render_bindings(bindings.deep_view().take(i as int));
            assert forall|m: int| 0 <= m < i implies pd[m] == target[m] by {
                assert(pd[m] == pairs@[m].deep_view());
                assert(bindings.deep_view()[m] == bindings@[m].deep_view());
                if m < i - 1 {
                    assert(prevd[m] == pairs@[m].deep_view());
                    assert(prevd[m] == render_bindings(
                        bindings.deep_view().take(i as int - 1),
                    )[m]);
                }
            }
            assert(pd =~= target);
        }
    }
    proof {
        assert(bindings.deep_view().take(bindings@.len() as int) =~= bindings.deep_view());
    }
    let chars = text::chars_of(template);
    match template::format_template_exec(&chars, &pairs) {
        Some(out) => Ok(text::string_from_chars(&out)),
        None => Err(Error::Format),
    }
}

fn label_in(names: &Vec<AttributeLabel>, l: &AttributeLabel) -> (r: bool)
    ensures
        r == names.deep_view().contains(l@),
{
    let mut i: usize = 0;
    while i < names.len()
        invariant
            i <= names@.len(),
            forall|m: int| 0 <= m < i ==> names.deep_view()[m] != l@,
        decreases names@.len() - i,
    {
        proof {
            assert(names.deep_view()[i as int] == names@[i as int].deep_view());
        }
        if names[i].same_as(l) {
            return true;
        }
        i += 1;
    }
    proof {
        if names.deep_view().contains(l@) {
            let m = choose|m: int|
                0 <= m < names.deep_view().len() && names.deep_view()[m] == l@;
        }
    }
    false
}

fn duplicate_bindings(b: &Vec<(AttributeLabel, StimulusAttribute)>) -> (r: Vec<
    (AttributeLabel, StimulusAttribute),
>)
    ensures
        r.deep_view() == b.deep_view(),
{
    let mut r: Vec<(AttributeLabel, StimulusAttribute)> = Vec::new();
    let mut i: usize = 0;
    while i < b.len()
        invariant
            i <= b@.len(),
            r@.len() == i,
            r.deep_view() == b.deep_view().take(i as int),
        decreases b@.len() - i,
    {
        let p = (b[i].0.duplicate(), b[i].1.duplicate());
        r.push(p);
        i += 1;
        proof {
            let rd = r.deep_view();
            let bd = b.deep_view();
            assert forall|m: int| 0 <= m < i implies rd[m] == bd.take(i as int)[m] by {
                assert(rd[m] == r@[m].deep_view());
                assert(bd[m] == b@[m].deep_view());
            }
            assert(rd =~= bd.take(i as int));
        }
    }
    proof {
        assert(b.deep_view().take(b@.len() as int) =~= b.deep_view());
    }
    r
}

fn build_document(experiment: &Experiment, active: &CorrectChoices, included: &Vec<Stimulus>) -> (r:
    Result<DecideConfig, Error>)
    requires
        forall|t: int|
            0 <= t < included.deep_view().len() ==> lookup_attr(
                (#[trigger] included.deep_view()[t]).attributes,
                included.deep_view()[t].decisive,
            ) is Some,
    ensures
        match r {
            Ok(doc) => {
                &&& forall|t: int|
                    0 <= t < included.deep_view().len() ==> lookup_choice(
                        active@,
                        lookup_attr(
                            (#[trigger] included.deep_view()[t]).attributes,
                            included.deep_view()[t].decisive,
                        ).unwrap(),
                    ) is Some
                &&& forall|t: int|
                    0 <= t < included.deep_view().len() ==> format_template(
                        experiment@.stimuli.format,
                        render_bindings((#[trigger] included.deep_view()[t]).attributes),
                    ) is Some
                &&& doc@ == (DecideConfigValue {
                    parameters: experiment@.decide.parameters,
                    stimulus_root: experiment@.decide.stimulus_root,
                    stimuli: dedup_by_name(
                        included.deep_view().map_values(
                            |st: StimulusValue|
                                entry_value(st, active@, experiment@.stimuli.format),
                        ),
                    ),
                })
            },
            Err(e) => match e@ {
                ErrorValue::StimMissingFromCorrectChoices(v) => exists|t: int|
                    0 <= t < included.deep_view().len() && lookup_attr(
                        (#[trigger] included.deep_view()[t]).attributes,
                        included.deep_view()[t].decisive,
                    ).unwrap() == v && lookup_choice(active@, v) is None,
                ErrorValue::Format => exists|t: int|
                    0 <= t < included.deep_view().len() && format_template(
                        experiment@.stimuli.format,
                        render_bindings((#[trigger] included.deep_view()[t]).attributes),
                    ) is None,
                _ => false,
            },
        },
{
    let ghost target = included.deep_view().map_values(
        |st: StimulusValue| entry_value(st, active@, experiment@.stimuli.format),
    );
    let mut entries: Vec<StimulusConfig> = Vec::new();
    let mut t: usize = 0;
    proof {
        assert(entries.deep_view() =~= target.take(0));
    }
    while t < included.len()
        invariant
            t <= included@.len(),
            target == included.deep_view().map_values(
                |st: StimulusValue| entry_value(st, active@, experiment@.stimuli.format),
            ),
            forall|m: int|
                0 <= m < included.deep_view().len() ==> lookup_attr(
                    (#[trigger] included.deep_view()[m]).attributes,
                    included.deep_view()[m].decisive,
                ) is Some,
            entries@.len() == t,
            entries.deep_view() == target.take(t as int),
            forall|m: int|
                0 <= m < t ==> lookup_choice(
                    active@,
                    lookup_attr(
                        (#[trigger] included.deep_view()[m]).attributes,
                        included.deep_view()[m].decisive,
                    ).unwrap(),
                ) is Some,
            forall|m: int|
                0 <= m < t ==> format_template(
                    experiment@.stimuli.format,
                    render_bindings((#[trigger] included.deep_view()[m]).attributes),
                ) is Some,
        decreases included@.len() - t,
    {
        proof {
            assert(included.deep_view()[t as int] == included@[t as int].deep_view());
        }
        let entry = match StimulusConfig::from(
            &included[t],
            active,
            experiment.stimuli.format.as_str(),
        ) {
            Ok(entry) => entry,
            Err(e) => {
                return Err(e);
            },
        };
        let ghost prevd = entries.deep_view();
        entries.push(entry);
        t += 1;
        proof {
            let ed = entries.deep_view();
            assert forall|m: int| 0 <= m < t implies ed[m] == target.take(t as int)[m] by {
                assert(ed[m] == entries@[m].deep_view());
                if m < t - 1 {
                    assert(prevd[m] == entries@[m].deep_view());
                    assert(prevd[m] == target.take(t as int - 1)[m]);
                }
            }
            assert(ed =~= target.take(t as int));
        }
    }
    proof {
        assert(target.take(included@.len() as int) =~= target);
    }
    Ok(DecideConfig::new(entries, experiment.stimulus_root(), experiment.decide_parameters()))
}

/// One configuration document per (subset, held-constant binding,
/// inversion flag) triple, each with the naming bindings that identify
/// it. The whole batch fails on the first error: a name template that
/// does not parse or references an undeclared attribute, a stimulus
/// without an assigned response, or a display name that does not render.
pub fn make_configs(experiment: &Experiment, correct_choices: &CorrectChoices) -> (r: Result<
    Vec<(DecideConfig, Vec<(AttributeLabel, StimulusAttribute)>)>,
    Error,
>)
    requires
        lookup_config(experiment@.stimuli.values, experiment@.stimuli.decisive) is Some,
        labels_unique(experiment@.stimuli.values),
        le_compatible(experiment@.stimuli.values),
        correct_choices.is_two_valued(),
    ensures
        match r {
            Ok(v) => generation_ok(experiment@, correct_choices@) && v.deep_view() == docs_from(
                experiment@,
                correct_choices@,
                0,
            ),
            Err(e) => !generation_ok(experiment@, correct_choices@) && match e@ {
                ErrorValue::Format => template_args(experiment@.decide.name_format) is None
                    || exists|si: int, bi: int, t: int|
                    0 <= si < subsets_spec(experiment@).len() && 0 <= bi < binding_combos(
                        experiment@,
                    ).len() && 0 <= t < included_stimuli(experiment@, si, bi).len()
                        && format_template(
                        experiment@.stimuli.format,
                        render_bindings(
                            (#[trigger] included_stimuli(experiment@, si, bi)[t]).attributes,
                        ),
                    ) is None,
                ErrorValue::UnknownAttributeInNameFormat(nm) => template_args(
                    experiment@.decide.name_format,
                ) matches Some(names) && names.contains(nm) && lookup_config(
                    experiment@.stimuli.values,
                    nm,
                ) is None,
                ErrorValue::StimMissingFromCorrectChoices(val) => exists|si: int, bi: int, t: int|
                    0 <= si < subsets_spec(experiment@).len() && 0 <= bi < binding_combos(
                        experiment@,
                    ).len() && 0 <= t < included_stimuli(experiment@, si, bi).len() && lookup_attr(
                        (#[trigger] included_stimuli(experiment@, si, bi)[t]).attributes,
                        included_stimuli(experiment@, si, bi)[t].decisive,
                    ).unwrap() == val && (lookup_choice(correct_choices@, val) is None
                    || lookup_choice(invert_choices(correct_choices@), val) is None),
                _ => false,
            },
        },
{
    let ghost e = experiment@;
    let ghost cc = correct_choices@;
    let format_arguments = match experiment.named_args() {
        Ok(labels) => labels,
        Err(err) => {
            proof {
                assert(!names_ok(e));
            }
            return Err(err);
        },
    };
    let ghost names = template_args(e.decide.name_format).unwrap();
    proof {
        assert(names_ok(e));
    }
    // participating labels and their domains, in declaration order
    let ghost part_pred = |p: (Seq<char>, AttributeConfigValue)|
        template_args(e.decide.name_format).unwrap().contains(p.0);
    let mut plabels: Vec<AttributeLabel> = Vec::new();
    let mut lists: Vec<Vec<StimulusAttribute>> = Vec::new();
    let mut i: usize = 0;
    proof {
        reveal(Seq::filter);
        assert(e.stimuli.values.take(0).filter(part_pred) =~= Seq::<
            (Seq<char>, AttributeConfigValue),
        >::empty());
        assert(plabels.deep_view() =~= config_labels(e.stimuli.values.take(0).filter(part_pred)));
        assert(lists.deep_view() =~~= config_lists(e.stimuli.values.take(0).filter(part_pred)));
    }
    while i < experiment.stimuli.values.len()
        invariant
            i <= experiment.stimuli.values@.len(),
            e == experiment@,
            part_pred == (|p: (Seq<char>, AttributeConfigValue)|
                template_args(e.decide.name_format).unwrap().contains(p.0)),
            names == template_args(e.decide.name_format).unwrap(),
            format_arguments.deep_view() == names,
            plabels.deep_view() == config_labels(e.stimuli.values.take(i as int).filter(part_pred)),
            lists.deep_view() == config_lists(e.stimuli.values.take(i as int).filter(part_pred)),
        decreases experiment.stimuli.values@.len() - i,
    {
        proof {
            assert(e.stimuli.values[i as int] == experiment.stimuli.values@[i as int].deep_view());
        }
        let keep = label_in(&format_arguments, &experiment.stimuli.values[i].0);
        let ghost prev_labels = plabels.deep_view();
        let ghost prev_lists = lists.deep_view();
        if keep {
            plabels.push(experiment.stimuli.values[i].0.duplicate());
            let mut vs: Vec<StimulusAttribute> = Vec::new();
            let domain = &experiment.stimuli.values[i].1.values;
            let mut k: usize = 0;
            while k < domain.len()
                invariant
                    k <= domain@.len(),
                    domain.deep_view() == e.stimuli.values[i as int].1.values,
                    i < experiment.stimuli.values@.len(),
                    e == experiment@,
                    vs@.len() == k,
                    vs.deep_view() == domain.deep_view().take(k as int),
                decreases domain@.len() - k,
            {
                vs.push(domain[k].duplicate());
                k += 1;
                proof {
                    let vd = vs.deep_view();
                    let dd = domain.deep_view();
                    assert forall|m: int| 0 <= m < k implies vd[m] == dd.take(k as int)[m] by {
                        assert(vd[m] == vs@[m].deep_view());
                        assert(dd[m] == domain@[m].deep_view());
                    }
                    assert(vd =~= dd.take(k as int));
                }
            }
            proof {
                assert(domain.deep_view().take(domain@.len() as int) =~= domain.deep_view());
            }
            lists.push(vs);
        }
        i += 1;
        proof {
            reveal(Seq::filter);
            let vals = e.stimuli.values;
            assert(vals.take(i as int).drop_last() =~= vals.take(i as int - 1));
            assert(vals.take(i as int).last() == vals[i as int - 1]);
            assert(keep == part_pred(vals[i as int - 1]));
            let f = vals.take(i as int).filter(part_pred);
            let fprev = vals.take(i as int - 1).filter(part_pred);
            if keep {
                assert(f == fprev.push(vals[i as int - 1]));
                assert(f.len() == fprev.len() + 1);
                assert(prev_labels.len() == config_labels(fprev).len());
                assert(config_labels(fprev).len() == fprev.len());
                assert(prev_lists.len() == config_lists(fprev).len());
                let pl = plabels.deep_view();
                assert(pl.len() == f.len());
                assert forall|m: int| 0 <= m < pl.len() implies pl[m] == config_labels(f)[m] by {
                    assert(pl[m] == plabels@[m].deep_view());
                    assert(config_labels(f)[m] == f[m].0);
                    if m < pl.len() - 1 {
                        assert(prev_labels[m] == plabels@[m].deep_view());
                        assert(prev_labels[m] == config_labels(fprev)[m]);
                        assert(f[m] == fprev[m]);
                    } else {
                        assert(f[m] == vals[i as int - 1]);
                    }
                }
                assert(pl =~= config_labels(f));
                let ll = lists.deep_view();
                assert(ll.len() == f.len());
                assert forall|m: int| 0 <= m < ll.len() implies ll[m] == config_lists(f)[m] by {
                    assert(ll[m] == lists@[m].deep_view());
                    assert(config_lists(f)[m] == f[m].1.values);
                    if m < ll.len() - 1 {
                        assert(prev_lists[m] == lists@[m].deep_view());
                        assert(prev_lists[m] == config_lists(fprev)[m]);
                        assert(f[m] == fprev[m]);
                    } else {
                        assert(f[m] == vals[i as int - 1]);
                    }
                }
                assert(ll =~~= config_lists(f));
            } else {
                assert(f == fprev);
            }
        }
    }
    proof {
        assert(e.stimuli.values.take(experiment.stimuli.values@.len() as int) =~= e.stimuli.values);
        assert(plabels.deep_view() == config_labels(participating(e)));
        assert(lists.deep_view() == config_lists(participating(e)));
    }
    let mut combos = product::product_exec(&lists);
    if combos.len() == 0 {
        combos.push(Vec::new());
        proof {
            assert(combos.deep_view() =~~= binding_combos(e));
        }
    }
    proof {
        assert(combos.deep_view() == binding_combos(e));
    }
    let inverted_choices = correct_choices.inverted();
    let subsets = experiment.stimuli_subsets();
    let mut out: Vec<(DecideConfig, Vec<(AttributeLabel, StimulusAttribute)>)> = Vec::new();
    let mut si: usize = 0;
    proof {
        assert(out.deep_view() + docs_from(e, cc, 0) =~= docs_from(e, cc, 0));
        assert(subsets.deep_view().len() == subsets_spec(e).len());
    }
    while si < subsets.len()
        invariant
            si <= subsets@.len(),
            e == experiment@,
            cc == correct_choices@,
            lookup_config(e.stimuli.values, e.stimuli.decisive) is Some,
            labels_unique(e.stimuli.values),
            le_compatible(e.stimuli.values),
            correct_choices.is_two_valued(),
            names == template_args(e.decide.name_format).unwrap(),
            names_ok(e),
            plabels.deep_view() == config_labels(participating(e)),
            lists.deep_view() == config_lists(participating(e)),
            combos.deep_view() == binding_combos(e),
            inverted_choices@ == invert_choices(cc),
            subsets.deep_view() == subsets_spec(e),
            docs_from(e, cc, 0) == out.deep_view() + docs_from(e, cc, si as int),
            forall|si2: int, bi2: int, t: int|
                0 <= si2 < si && 0 <= bi2 < binding_combos(e).len() && 0 <= t < included_stimuli(
                    e,
                    si2,
                    bi2,
                ).len() ==> stim_ok(e, cc, #[trigger] included_stimuli(e, si2, bi2)[t]),
        decreases subsets@.len() - si,
    {
        let mut bi: usize = 0;
        proof {
            assert(docs_from(e, cc, si as int) == combo_docs(e, cc, si as int, 0) + docs_from(
                e,
                cc,
                si as int + 1,
            ));
        }
        while bi < combos.len()
            invariant
                bi <= combos@.len(),
                si < subsets@.len(),
                e == experiment@,
                cc == correct_choices@,
                lookup_config(e.stimuli.values, e.stimuli.decisive) is Some,
                labels_unique(e.stimuli.values),
                le_compatible(e.stimuli.values),
                correct_choices.is_two_valued(),
                names == template_args(e.decide.name_format).unwrap(),
                names_ok(e),
                plabels.deep_view() == config_labels(participating(e)),
                lists.deep_view() == config_lists(participating(e)),
                combos.deep_view() == binding_combos(e),
                inverted_choices@ == invert_choices(cc),
                subsets.deep_view() == subsets_spec(e),
                docs_from(e, cc, 0) == out.deep_view() + combo_docs(e, cc, si as int, bi as int)
                    + docs_from(e, cc, si as int + 1),
                forall|si2: int, bi2: int, t: int|
                    0 <= si2 < si && 0 <= bi2 < binding_combos(e).len() && 0 <= t
                        < included_stimuli(e, si2, bi2).len() ==> stim_ok(
                        e,
                        cc,
                        #[trigger] included_stimuli(e, si2, bi2)[t],
                    ),
                forall|bi2: int, t: int|
                    0 <= bi2 < bi && 0 <= t < included_stimuli(e, si as int, bi2).len()
                        ==> stim_ok(e, cc, #[trigger] included_stimuli(e, si as int, bi2)[t]),
            decreases combos@.len() - bi,
        {
            let combo = &combos[bi];
            proof {
                assert(combos.deep_view()[bi as int] == combos@[bi as int].deep_view());
                if product(config_lists(participating(e))).len() > 0 {
                    assert(binding_combos(e) == product(config_lists(participating(e))));
                    assert(binding_combos(e).contains(binding_combos(e)[bi as int]));
                    lemma_product_elem(
                        config_lists(participating(e)),
                        binding_combos(e)[bi as int],
                    );
                    assert(combo.deep_view().len() == config_lists(participating(e)).len());
                } else {
                    assert(binding_combos(e) =~= seq![Seq::<AttributeValue>::empty()]);
                    assert(combo.deep_view().len() == 0);
                }
                assert(combo.deep_view().len() <= plabels@.len());
            }
            // the held-constant binding for this combination
            let mut binding: Vec<(AttributeLabel, StimulusAttribute)> = Vec::new();
            let mut k: usize = 0;
            proof {
                assert(binding.deep_view() =~= binding_at(e, bi as int).take(0));
            }
            while k < combo.len()
                invariant
                    k <= combo@.len(),
                    combo.deep_view().len() == combo@.len(),
                    combo@.len() <= plabels@.len(),
                    e == experiment@,
                    bi < combos@.len(),
                    combos.deep_view() == binding_combos(e),
                    combo.deep_view() == binding_combos(e)[bi as int],
                    plabels.deep_view() == config_labels(participating(e)),
                    binding@.len() == k,
                    binding.deep_view() == binding_at(e, bi as int).take(k as int),
                decreases combo@.len() - k,
            {
                let p = (plabels[k].duplicate(), combo[k].duplicate());
                let ghost prevd = binding.deep_view();
                binding.push(p);
                k += 1;
                proof {
                    let bd = binding.deep_view();
                    let target = binding_at(e, bi as int);
                    assert(target.len() == combo@.len());
                    assert forall|m: int| 0 <= m < k implies bd[m] == target.take(k as int)[m] by {
                        assert(bd[m] == binding@[m].deep_view());
                        assert(plabels.deep_view()[m] == plabels@[m].deep_view());
                        assert(combo.deep_view()[m] == combo@[m].deep_view());
                        assert(target[m] == (
                            config_labels(participating(e)).take(combo.deep_view().len() as int)[m],
                            combo.deep_view()[m],
                        ));
                        if m < k - 1 {
                            assert(prevd[m] == binding@[m].deep_view());
                            assert(prevd[m] == target.take(k as int - 1)[m]);
                        }
                    }
                    assert(bd =~= target.take(k as int));
                }
            }
            proof {
                assert(binding_at(e, bi as int).take(combo@.len() as int) =~= binding_at(
                    e,
                    bi as int,
                ));
            }
            proof {
                assert(subsets.deep_view()[si as int] == subsets@[si as int].deep_view());
            }
            let subset_stimuli = &subsets[si].1;
            proof {
                let bv = binding.deep_view();
                let part = participating(e);
                let part_pred2 = |p: (Seq<char>, AttributeConfigValue)|
                    template_args(e.decide.name_format).unwrap().contains(p.0);
                assert(part == e.stimuli.values.filter(part_pred2));
                assert(config_labels(part).len() == part.len());
                assert(bv.len() == binding_at(e, bi as int).len());
                assert(bv.len() <= part.len());
                assert forall|j: int| 0 <= j < bv.len() implies lookup_config(
                    e.stimuli.values,
                    (#[trigger] bv[j]).0,
                ) is Some by {
                    assert(bv[j].0 == config_labels(part)[j]);
                    assert(config_labels(part)[j] == part[j].0);
                    lemma_filter_elem(e.stimuli.values, part_pred2, j);
                    assert(part[j] == e.stimuli.values.filter(part_pred2)[j]);
                    lemma_contains_lookup(e.stimuli.values, part[j]);
                }
                let sd = subset_stimuli.deep_view();
                assert(sd == subsets_spec(e)[si as int].1);
                assert forall|j: int, m: int|
                    0 <= j < bv.len() && 0 <= m < sd.len() implies stimulus::binding_compatible(
                    e.stimuli,
                    #[trigger] sd[m],
                    #[trigger] bv[j],
                ) by {
                    let label = bv[j].0;
                    if stimulus::binding_flag(e.stimuli, label) && lookup_attr(
                        sd[m].attributes,
                        label,
                    ) is Some {
                        lemma_filter_elem(e.stimuli.values, part_pred2, j);
                        assert(part[j] == e.stimuli.values.filter(part_pred2)[j]);
                        lemma_unique_lookup(e.stimuli.values, part[j]);
                        let cfg = lookup_config(e.stimuli.values, label).unwrap();
                        assert(cfg == part[j].1);
                        // the binding value is drawn from the label's domain
                        assert(bv[j].1 == combo.deep_view()[j]);
                        if product(config_lists(part)).len() > 0 {
                            assert(config_lists(part)[j].contains(combo.deep_view()[j]));
                            assert(config_lists(part)[j] == part[j].1.values);
                            let w = choose|w: int|
                                0 <= w < part[j].1.values.len() && part[j].1.values[w]
                                    == combo.deep_view()[j];
                            let vi = choose|vi: int|
                                0 <= vi < e.stimuli.values.len() && e.stimuli.values[vi]
                                    == part[j];
                            assert(e.stimuli.values[vi].1.values[w] is Numeric);
                        }
                        // the stimulus's own value is drawn from the same domain
                        assert(stimuli_space(e.stimuli).contains(sd[m])) by {
                            match e.decide.stimuli_subsets {
                                None => {
                                    assert(subsets_spec(e)[0].1 == stimuli_space(e.stimuli));
                                    assert(stimuli_space(e.stimuli).contains(
                                        stimuli_space(e.stimuli)[m],
                                    ));
                                },
                                Some(subs) => {
                                    assert(subsets_spec(e)[si as int].1 == experiment::subset_stimuli(
                                        e.stimuli,
                                        subs[si as int].1,
                                    ));
                                    lemma_filter_elem(
                                        stimuli_space(e.stimuli),
                                        |st: StimulusValue|
                                            subs[si as int].1.contains(
                                                lookup_attr(
                                                    st.attributes,
                                                    e.stimuli.decisive,
                                                ).unwrap(),
                                            ),
                                        m,
                                    );
                                },
                            }
                        }
                        lemma_space_stimulus(e.stimuli, sd[m], label);
                        let sv = lookup_attr(sd[m].attributes, label).unwrap();
                        assert(cfg.values.contains(sv));
                        let w2 = choose|w2: int|
                            0 <= w2 < cfg.values.len() && cfg.values[w2] == sv;
                        let vi2 = choose|vi2: int|
                            0 <= vi2 < e.stimuli.values.len() && e.stimuli.values[vi2] == part[j];
                        assert(e.stimuli.values[vi2].1.values[w2] is Numeric);
                    }
                }
            }
            let included = filter_by_attributes(&experiment.stimuli, subset_stimuli, &binding);
            let ghost inc = included_stimuli(e, si as int, bi as int);
            proof {
                assert(included.deep_view() == inc);
                assert forall|t: int| 0 <= t < inc.len() implies lookup_attr(
                    (#[trigger] inc[t]).attributes,
                    inc[t].decisive,
                ) is Some by {
                    lemma_filter_elem(
                        subsets_spec(e)[si as int].1,
                        |st: StimulusValue|
                            stimulus::matches_all(e.stimuli, st, binding.deep_view()),
                        t,
                    );
                    let st = inc[t];
                    assert(subsets_spec(e)[si as int].1.contains(st));
                    assert(stimuli_space(e.stimuli).contains(st)) by {
                        let m = choose|m: int|
                            0 <= m < subsets_spec(e)[si as int].1.len() && subsets_spec(
                                e,
                            )[si as int].1[m] == st;
                        match e.decide.stimuli_subsets {
                            None => {
                                assert(subsets_spec(e)[0].1 == stimuli_space(e.stimuli));
                            },
                            Some(subs) => {
                                assert(subsets_spec(e)[si as int].1 == experiment::subset_stimuli(
                                    e.stimuli,
                                    subs[si as int].1,
                                ));
                                lemma_filter_elem(
                                    stimuli_space(e.stimuli),
                                    |st2: StimulusValue|
                                        subs[si as int].1.contains(
                                            lookup_attr(
                                                st2.attributes,
                                                e.stimuli.decisive,
                                            ).unwrap(),
                                        ),
                                    m,
                                );
                            },
                        }
                    }
                    lemma_space_stimulus(e.stimuli, st, st.decisive);
                }
            }
            let doc_inverted = match build_document(experiment, &inverted_choices, &included) {
                Ok(doc) => doc,
                Err(err) => {
                    proof {
                        assert(!generation_ok(e, cc));
                    }
                    return Err(err);
                },
            };
            let doc_base = match build_document(experiment, correct_choices, &included) {
                Ok(doc) => doc,
                Err(err) => {
                    proof {
                        assert(!generation_ok(e, cc));
                    }
                    return Err(err);
                },
            };
            let mut attrs_inverted = duplicate_bindings(&binding);
            let ghost base_i = attrs_inverted.deep_view();
            attrs_inverted.push(
                (AttributeLabel::from("set"), StimulusAttribute::from(subsets[si].0.as_str())),
            );
            attrs_inverted.push((AttributeLabel::from("inverted"), StimulusAttribute::from("Yes")));
            let mut attrs_base = duplicate_bindings(&binding);
            let ghost base_b = attrs_base.deep_view();
            attrs_base.push(
                (AttributeLabel::from("set"), StimulusAttribute::from(subsets[si].0.as_str())),
            );
            attrs_base.push((AttributeLabel::from("inverted"), StimulusAttribute::from("No")));
            proof {
                let ai = attrs_inverted.deep_view();
                let ti = attrs_value(e, si as int, bi as int, true);
                assert(subsets_spec(e)[si as int].0 == subsets@[si as int].0@);
                assert(base_i.len() == binding.deep_view().len());
                assert(ai.len() == base_i.len() + 2);
                assert(ti.len() == binding_at(e, bi as int).len() + 2);
                assert forall|m: int| 0 <= m < ai.len() implies ai[m] == ti[m] by {
                    assert(ai[m] == attrs_inverted@[m].deep_view());
                    if m < ai.len() - 2 {
                        assert(base_i[m] == attrs_inverted@[m].deep_view());
                        assert(base_i[m] == binding.deep_view()[m]);
                    }
                }
                assert(ai =~= ti);
                let ab = attrs_base.deep_view();
                let tb = attrs_value(e, si as int, bi as int, false);
                assert(base_b.len() == binding.deep_view().len());
                assert(ab.len() == base_b.len() + 2);
                assert(tb.len() == binding_at(e, bi as int).len() + 2);
                assert forall|m: int| 0 <= m < ab.len() implies ab[m] == tb[m] by {
                    assert(ab[m] == attrs_base@[m].deep_view());
                    if m < ab.len() - 2 {
                        assert(base_b[m] == attrs_base@[m].deep_view());
                        assert(base_b[m] == binding.deep_view()[m]);
                    }
                }
                assert(ab =~= tb);
            }
            let ghost pair_true = (doc_inverted@, attrs_inverted.deep_view());
            let ghost pair_false = (doc_base@, attrs_base.deep_view());
            proof {
                assert(doc_inverted@ == doc_value(e, cc, si as int, bi as int, true)) by {
                    assert(inverted_choices@ == active_choices(cc, true));
                    assert(included.deep_view().map_values(
                        |st: StimulusValue| entry_value(st, inverted_choices@, e.stimuli.format),
                    ) =~= inc.map_values(
                        |st: StimulusValue|
                            entry_value(st, active_choices(cc, true), e.stimuli.format),
                    ));
                }
                assert(doc_base@ == doc_value(e, cc, si as int, bi as int, false)) by {
                    assert(correct_choices@ == active_choices(cc, false));
                }
                assert(pair_true == config_pair(e, cc, si as int, bi as int, true));
                assert(pair_false == config_pair(e, cc, si as int, bi as int, false));
            }
            let ghost prev_out = out.deep_view();
            out.push((doc_inverted, attrs_inverted));
            out.push((doc_base, attrs_base));
            bi += 1;
            proof {
                let od = out.deep_view();
                assert forall|m: int| 0 <= m < od.len() implies od[m] == prev_out.push(
                    pair_true,
                ).push(pair_false)[m] by {
                    assert(od[m] == out@[m].deep_view());
                    if m < od.len() - 2 {
                        assert(prev_out[m] == out@[m].deep_view());
                    }
                }
                assert(od =~= prev_out.push(pair_true).push(pair_false));
                assert(combo_docs(e, cc, si as int, bi as int - 1) == seq![pair_true, pair_false]
                    + combo_docs(e, cc, si as int, bi as int));
                assert(prev_out.push(pair_true).push(pair_false) + combo_docs(
                    e,
                    cc,
                    si as int,
                    bi as int,
                ) =~= prev_out + (seq![pair_true, pair_false] + combo_docs(
                    e,
                    cc,
                    si as int,
                    bi as int,
                )));
                assert(docs_from(e, cc, 0) == out.deep_view() + combo_docs(
                    e,
                    cc,
                    si as int,
                    bi as int,
                ) + docs_from(e, cc, si as int + 1));
                assert forall|bi2: int, t: int|
                    0 <= bi2 < bi && 0 <= t < included_stimuli(e, si as int, bi2).len() implies
                    stim_ok(e, cc, #[trigger] included_stimuli(e, si as int, bi2)[t]) by {
                    if bi2 == bi - 1 {
                        assert(included_stimuli(e, si as int, bi2) == inc);
                    }
                }
            }
        }
        si += 1;
        proof {
            assert(combo_docs(e, cc, si as int - 1, combos@.len() as int) =~= Seq::<
                (DecideConfigValue, Seq<(Seq<char>, AttributeValue)>),
            >::empty());
            assert(out.deep_view() + combo_docs(e, cc, si as int - 1, combos@.len() as int)
                =~= out.deep_view());
            assert(docs_from(e, cc, 0) == out.deep_view() + docs_from(e, cc, si as int));
            assert forall|si2: int, bi2: int, t: int|
                0 <= si2 < si && 0 <= bi2 < binding_combos(e).len() && 0 <= t < included_stimuli(
                    e,
                    si2,
                    bi2,
                ).len() implies stim_ok(e, cc, #[trigger] included_stimuli(e, si2, bi2)[t]) by {}
        }
    }
    proof {
        assert(docs_from(e, cc, subsets@.len() as int) =~= Seq::<
            (DecideConfigValue, Seq<(Seq<char>, AttributeValue)>),
        >::empty());
        assert(out.deep_view() =~= docs_from(e, cc, 0));
        assert(generation_ok(e, cc));
    }
    Ok(out)
}

} // verus!
