//! The declared experiment: global parameters, the name template for
//! output documents, the response choices, and named subsets of the
//! decisive domain, validated against the attribute space.
use crate::attribute::{AttributeLabel, AttributeValue, StimulusAttribute};
use crate::decide::Response;
use crate::stimulus::{
    config_labels, lemma_space_stimulus, lookup_attr, lookup_config, stimuli_space, StimuliConfig,
    StimuliConfigValue, Stimulus, StimulusValue,
};
use crate::template::{template_args, template_args_exec};
use crate::text::chars_of;
use crate::Error;
use vstd::prelude::*;

verus! {

/// Mathematical value of an `ExperimentConfig`.
pub struct ExperimentConfigValue {
    pub parameters: Seq<char>,
    pub name_format: Seq<char>,
    pub stimulus_root: Seq<char>,
    pub choices: (Response, Response),
    pub stimuli_subsets: Option<Seq<(Seq<char>, Seq<AttributeValue>)>>,
}

/// The experiment-level settings: a free-form parameter blob passed
/// through verbatim, the output name template, the stimulus root
/// location, the two response choices, and optional named subsets of the
/// decisive domain.
#[derive(Debug, PartialEq)]
pub struct ExperimentConfig {
    pub parameters: String,
    pub name_format: String,
    pub stimulus_root: String,
    pub choices: (Response, Response),
    pub stimuli_subsets: Option<Vec<(String, Vec<StimulusAttribute>)>>,
}

impl View for ExperimentConfig {
    type V = ExperimentConfigValue;

    open spec fn view(&self) -> ExperimentConfigValue {
        ExperimentConfigValue {
            parameters: self.parameters@,
            name_format: self.name_format@,
            stimulus_root: self.stimulus_root@,
            choices: self.choices,
            stimuli_subsets: match self.stimuli_subsets {
                None => None,
                Some(ref subs) => Some(subs.deep_view()),
            },
        }
    }
}

impl ExperimentConfig {
    /// The attribute names referenced by the output name template, in
    /// template order; fails when the template is malformed.
    pub fn named_args(&self) -> (r: Result<Vec<String>, Error>)
        ensures
            match r {
                Ok(names) => template_args(self@.name_format) == Some(names.deep_view()),
                Err(e) => e == Error::Format && template_args(self@.name_format) is None,
            },
    {
        let chars = chars_of(self.name_format.as_str());
        match template_args_exec(&chars) {
            Some(names) => Ok(names),
            None => Err(Error::Format),
        }
    }
}

/// Whether every value of `subset` belongs to `domain`.
pub open spec fn subset_of_domain(subset: Seq<AttributeValue>, domain: Seq<AttributeValue>) -> bool {
    forall|i: int| 0 <= i < subset.len() ==> domain.contains(#[trigger] subset[i])
}

/// Whether every declared subset is a subset of the decisive domain.
pub open spec fn subsets_valid(d: ExperimentConfigValue, s: StimuliConfigValue) -> bool {
    match d.stimuli_subsets {
        None => true,
        Some(subs) => forall|i: int|
            0 <= i < subs.len() ==> subset_of_domain(
                (#[trigger] subs[i]).1,
                lookup_config(s.values, s.decisive).unwrap().values,
            ),
    }
}

/// The stimuli of the space whose decisive value belongs to `vals`.
pub open spec fn subset_stimuli(c: StimuliConfigValue, vals: Seq<AttributeValue>) -> Seq<
    StimulusValue,
> {
    stimuli_space(c).filter(
        |st: StimulusValue| vals.contains(lookup_attr(st.attributes, c.decisive).unwrap()),
    )
}

/// The resolved stimulus subsets: one per declared subset, or the single
/// implicit subset "All" holding the whole space when none is declared.
pub open spec fn subsets_spec(e: ExperimentValue) -> Seq<(Seq<char>, Seq<StimulusValue>)> {
    match e.decide.stimuli_subsets {
        None => seq![("All"@, stimuli_space(e.stimuli))],
        Some(subs) => subs.map_values(
            |p: (Seq<char>, Seq<AttributeValue>)| (p.0, subset_stimuli(e.stimuli, p.1)),
        ),
    }
}

/// Mathematical value of an `Experiment`.
pub struct ExperimentValue {
    pub decide: ExperimentConfigValue,
    pub stimuli: StimuliConfigValue,
}

/// A validated experiment description: the attribute space together with
/// the experiment-level settings, whose declared subsets are all subsets
/// of the decisive domain.
#[derive(Debug, PartialEq)]
pub struct Experiment {
    pub decide: ExperimentConfig,
    pub stimuli: StimuliConfig,
}

impl View for Experiment {
    type V = ExperimentValue;

    open spec fn view(&self) -> ExperimentValue {
        ExperimentValue { decide: self.decide@, stimuli: self.stimuli@ }
    }
}

fn contains_value(domain: &Vec<StimulusAttribute>, v: &StimulusAttribute) -> (r: bool)
    ensures
        r == domain.deep_view().contains(v@),
{
    let mut i: usize = 0;
    while i < domain.len()
        invariant
            i <= domain@.len(),
            forall|m: int| 0 <= m < i ==> domain.deep_view()[m] != v@,
        decreases domain@.len() - i,
    {
        proof {
            assert(domain.deep_view()[i as int] == domain@[i as int].deep_view());
        }
        if domain[i].same_as(v) {
            return true;
        }
        i += 1;
    }
    proof {
        if domain.deep_view().contains(v@) {
            let m = choose|m: int|
                0 <= m < domain.deep_view().len() && domain.deep_view()[m] == v@;
        }
    }
    false
}

impl Experiment {
    /// Builds a validated experiment. Fails when the decisive attribute
    /// has no declared domain, or — naming the offending subset — when a
    /// declared subset is not a subset of the decisive domain.
    pub fn new(decide: ExperimentConfig, stimuli: StimuliConfig) -> (r: Result<Self, Error>)
        ensures
            match r {
                Ok(e) => {
                    &&& e@.decide == decide@
                    &&& e@.stimuli == stimuli@
                    &&& lookup_config(stimuli@.values, stimuli@.decisive) is Some
                    &&& subsets_valid(decide@, stimuli@)
                },
                Err(e) => match e@ {
                    crate::ErrorValue::DecisiveAttributeNotFound => lookup_config(
                        stimuli@.values,
                        stimuli@.decisive,
                    ) is None,
                    crate::ErrorValue::NotASubset(name) => {
                        &&& lookup_config(stimuli@.values, stimuli@.decisive) is Some
                        &&& !subsets_valid(decide@, stimuli@)
                        &&& decide@.stimuli_subsets matches Some(subs) && exists|i: int|
                            0 <= i < subs.len() && (#[trigger] subs[i]).0 == name
                                && !subset_of_domain(
                                subs[i].1,
                                lookup_config(stimuli@.values, stimuli@.decisive).unwrap().values,
                            )
                    },
                    _ => false,
                },
            },
    {
        let domain = {
            let label = stimuli.decisive_attribute().duplicate();
            match stimuli.list_variants(&label) {
                Some(d) => d,
                None => {
                    return Err(Error::DecisiveAttributeNotFound);
                },
            }
        };
        let ghost domain_spec = lookup_config(stimuli@.values, stimuli@.decisive).unwrap().values;
        match &decide.stimuli_subsets {
            None => {},
            Some(subsets) => {
                let ghost subs = decide@.stimuli_subsets.unwrap();
                let mut si: usize = 0;
                while si < subsets.len()
                    invariant
                        si <= subsets@.len(),
                        subs == subsets.deep_view(),
                        subs == decide@.stimuli_subsets.unwrap(),
                        decide@.stimuli_subsets is Some,
                        domain.deep_view() == domain_spec,
                        domain_spec == lookup_config(
                            stimuli@.values,
                            stimuli@.decisive,
                        ).unwrap().values,
                        lookup_config(stimuli@.values, stimuli@.decisive) is Some,
                        forall|m: int|
                            0 <= m < si ==> subset_of_domain(
                                (#[trigger] subs[m]).1,
                                domain_spec,
                            ),
                    decreases subsets@.len() - si,
                {
                    let subset = &subsets[si].1;
                    proof {
                        assert(subs[si as int] == subsets@[si as int].deep_view());
                    }
                    let mut vi: usize = 0;
                    while vi < subset.len()
                        invariant
                            vi <= subset@.len(),
                            si < subsets@.len(),
                            subs == subsets.deep_view(),
                            subs == decide@.stimuli_subsets.unwrap(),
                            decide@.stimuli_subsets is Some,
                            subset.deep_view() == subs[si as int].1,
                            domain.deep_view() == domain_spec,
                            domain_spec == lookup_config(
                                stimuli@.values,
                                stimuli@.decisive,
                            ).unwrap().values,
                            lookup_config(stimuli@.values, stimuli@.decisive) is Some,
                            forall|m: int|
                                0 <= m < vi ==> domain_spec.contains(
                                    #[trigger] subset.deep_view()[m],
                                ),
                        decreases subset@.len() - vi,
                    {
                        proof {
                            assert(subset.deep_view()[vi as int] == subset@[vi as int].deep_view());
                        }
                        if !contains_value(&domain, &subset[vi]) {
                            proof {
                                assert(!domain_spec.contains(subs[si as int].1[vi as int]));
                                assert(!subset_of_domain(subs[si as int].1, domain_spec));
                                assert(subs[si as int] == subsets@[si as int].deep_view());
                                assert(decide@.stimuli_subsets == Some(subs));
                                assert(domain_spec == lookup_config(
                                    stimuli@.values,
                                    stimuli@.decisive,
                                ).unwrap().values);
                                assert(subsets_valid(decide@, stimuli@) ==> subset_of_domain(
                                    subs[si as int].1,
                                    lookup_config(
                                        stimuli@.values,
                                        stimuli@.decisive,
                                    ).unwrap().values,
                                ));
                                assert(!subsets_valid(decide@, stimuli@));
                            }
                            return Err(Error::NotASubset(subsets[si].0.clone()));
                        }
                        vi += 1;
                    }
                    si += 1;
                }
            },
        }
        Ok(Experiment { decide, stimuli })
    }

    /// Every stimulus of the attribute space.
    pub fn stimuli(&self) -> (r: Vec<Stimulus>)
        ensures
            r.deep_view() == stimuli_space(self@.stimuli),
    {
        self.stimuli.stimuli()
    }

    /// The attribute labels referenced by the output name template, each
    /// resolved against the attribute space; fails when the template is
    /// malformed or — naming it — when a referenced attribute is not
    /// declared.
    pub fn named_args(&self) -> (r: Result<Vec<AttributeLabel>, Error>)
        ensures
            match r {
                Ok(labels) => template_args(self@.decide.name_format) matches Some(names)
                    && labels.deep_view() == names && forall|i: int|
                    0 <= i < names.len() ==> lookup_config(
                        self@.stimuli.values,
                        #[trigger] names[i],
                    ) is Some,
                Err(e) => match e@ {
                    crate::ErrorValue::Format => template_args(self@.decide.name_format) is None,
                    crate::ErrorValue::UnknownAttributeInNameFormat(nm) => template_args(
                        self@.decide.name_format,
                    ) matches Some(names) && names.contains(nm) && lookup_config(
                        self@.stimuli.values,
                        nm,
                    ) is None,
                    _ => false,
                },
            },
    {
        let names = match self.decide.named_args() {
            Ok(names) => names,
            Err(e) => {
                return Err(e);
            },
        };
        let ghost names_spec = template_args(self@.decide.name_format).unwrap();
        let mut out: Vec<AttributeLabel> = Vec::new();
        let mut i: usize = 0;
        while i < names.len()
            invariant
                i <= names@.len(),
                names.deep_view() == names_spec,
                template_args(self@.decide.name_format) == Some(names_spec),
                out@.len() == i,
                out.deep_view() == names_spec.take(i as int),
                forall|m: int|
                    0 <= m < i ==> lookup_config(
                        self@.stimuli.values,
                        #[trigger] names_spec[m],
                    ) is Some,
            decreases names@.len() - i,
        {
            proof {
                assert(names.deep_view()[i as int] == names@[i as int].deep_view());
            }
            match self.stimuli.label_by_str(names[i].as_str()) {
                Some(label) => {
                    out.push(label.duplicate());
                },
                None => {
                    return Err(Error::UnknownAttributeInNameFormat(names[i].clone()));
                },
            }
            i += 1;
            proof {
                let od = out.deep_view();
                assert forall|m: int| 0 <= m < i implies od[m] == names_spec.take(i as int)[m] by {
                    assert(od[m] == out@[m].deep_view());
                    if m < i - 1 {
                        assert(out@[m].deep_view() == names_spec.take(i as int - 1)[m]);
                    }
                }
                assert(od =~= names_spec.take(i as int));
            }
        }
        proof {
            assert(names_spec.take(names@.len() as int) =~= names_spec);
        }
        Ok(out)
    }

    pub fn name_format(&self) -> (r: &str)
        ensures
            r@ == self@.decide.name_format,
    {
        self.decide.name_format.as_str()
    }

    /// The resolved stimulus subsets: one named group of stimuli per
    /// declared subset of the decisive domain, or a single subset "All"
    /// holding every stimulus when none is declared.
    pub fn stimuli_subsets(&self) -> (r: Vec<(String, Vec<Stimulus>)>)
        requires
            lookup_config(self@.stimuli.values, self@.stimuli.decisive) is Some,
        ensures
            r.deep_view() == subsets_spec(self@),
    {
        match &self.decide.stimuli_subsets {
            None => {
                let all = self.stimuli.stimuli();
                let mut r: Vec<(String, Vec<Stimulus>)> = Vec::new();
                let name: String = "All".to_owned();
                r.push((name, all));
                proof {
                    assert(r.deep_view() =~~= subsets_spec(self@));
                }
                r
            },
            Some(subsets) => {
                let ghost subs = subsets.deep_view();
                let mut r: Vec<(String, Vec<Stimulus>)> = Vec::new();
                let mut si: usize = 0;
                proof {
                    assert(r.deep_view() =~~= subsets_spec(self@).take(0));
                }
                while si < subsets.len()
                    invariant
                        si <= subsets@.len(),
                        subs == subsets.deep_view(),
                        self@.decide.stimuli_subsets == Some(subs),
                        lookup_config(self@.stimuli.values, self@.stimuli.decisive) is Some,
                        r@.len() == si,
                        r.deep_view() == subsets_spec(self@).take(si as int),
                    decreases subsets@.len() - si,
                {
                    proof {
                        assert(subs[si as int] == subsets@[si as int].deep_view());
                    }
                    let filtered = self.subset_members(&subsets[si].1);
                    let ghost prevd = r.deep_view();
                    let p = (subsets[si].0.clone(), filtered);
                    r.push(p);
                    si += 1;
                    proof {
                        let rd = r.deep_view();
                        let target = subsets_spec(self@);
                        assert(target.len() == subs.len());
                        assert forall|m: int| 0 <= m < si implies rd[m] == target.take(
                            si as int,
                        )[m] by {
                            assert(rd[m] == r@[m].deep_view());
                            assert(target[m] == (subs[m].0, subset_stimuli(
                                self@.stimuli,
                                subs[m].1,
                            )));
                            if m < si - 1 {
                                assert(prevd[m] == r@[m].deep_view());
                                assert(prevd[m] == target.take(si as int - 1)[m]);
                            }
                        }
                        assert(rd =~= target.take(si as int));
                    }
                }
                proof {
                    assert(subsets_spec(self@).len() == subs.len());
                    assert(subsets_spec(self@).take(subsets@.len() as int) =~= subsets_spec(
                        self@,
                    ));
                }
                r
            },
        }
    }

    /// The stimuli of the space whose decisive value belongs to `vals`.
    fn subset_members(&self, vals: &Vec<StimulusAttribute>) -> (r: Vec<Stimulus>)
        requires
            lookup_config(self@.stimuli.values, self@.stimuli.decisive) is Some,
        ensures
            r.deep_view() == subset_stimuli(self@.stimuli, vals.deep_view()),
    {
        let ghost cfg = self@.stimuli;
        let ghost pred = |st: StimulusValue|
            vals.deep_view().contains(lookup_attr(st.attributes, cfg.decisive).unwrap());
        let stims = self.stimuli.stimuli();
        let mut r: Vec<Stimulus> = Vec::new();
        let mut i: usize = 0;
        proof {
            reveal(Seq::filter);
            assert(stims.deep_view().take(0).filter(pred) =~= Seq::<StimulusValue>::empty());
            assert(r.deep_view() =~= Seq::<StimulusValue>::empty());
        }
        while i < stims.len()
            invariant
                i <= stims@.len(),
                cfg == self@.stimuli,
                pred == (|st: StimulusValue|
                    vals.deep_view().contains(lookup_attr(st.attributes, cfg.decisive).unwrap())),
                stims.deep_view() == stimuli_space(cfg),
                lookup_config(cfg.values, cfg.decisive) is Some,
                r.deep_view() == stims.deep_view().take(i as int).filter(pred),
            decreases stims@.len() - i,
        {
            proof {
                assert(stims.deep_view()[i as int] == stims@[i as int].deep_view());
                assert(stims.deep_view().contains(stims.deep_view()[i as int]));
                lemma_space_stimulus(cfg, stims.deep_view()[i as int], cfg.decisive);
            }
            let dv = stims[i].decisive_attribute();
            let keep = contains_value(vals, dv);
            let ghost prevd = r.deep_view();
            if keep {
                r.push(stims[i].duplicate());
            }
            i += 1;
            proof {
                reveal(Seq::filter);
                let sd = stims.deep_view();
                assert(sd.take(i as int).drop_last() =~= sd.take(i as int - 1));
                assert(sd.take(i as int).last() == sd[i as int - 1]);
                assert(keep == pred(sd[i as int - 1]));
                if keep {
                    let rd = r.deep_view();
                    assert forall|m: int| 0 <= m < rd.len() implies rd[m] == prevd.push(
                        sd[i as int - 1],
                    )[m] by {
                        assert(rd[m] == r@[m].deep_view());
                        if m < rd.len() - 1 {
                            assert(prevd[m] == r@[m].deep_view());
                        }
                    }
                    assert(rd =~= prevd.push(sd[i as int - 1]));
                }
                assert(r.deep_view() == sd.take(i as int).filter(pred));
            }
        }
        proof {
            assert(stims.deep_view().take(stims@.len() as int) =~= stims.deep_view());
        }
        r
    }

    /// The declared attribute labels, in declaration order.
    pub fn attribute_labels(&self) -> (r: Vec<AttributeLabel>)
        ensures
            r.deep_view() == config_labels(self@.stimuli.values),
    {
        self.stimuli.attribute_labels()
    }

    /// The ordered domain declared for `label`, or `None` when the label
    /// is undeclared.
    pub fn list_attribute_values(&self, label: &AttributeLabel) -> (r: Option<
        Vec<StimulusAttribute>,
    >)
        ensures
            match r {
                Some(vs) => lookup_config(self@.stimuli.values, label@) matches Some(c)
                    && vs.deep_view() == c.values,
                None => lookup_config(self@.stimuli.values, label@) is None,
            },
    {
        self.stimuli.list_variants(label)
    }

    /// The free-form parameter blob, passed through verbatim.
    pub fn decide_parameters(&self) -> (r: String)
        ensures
            r@ == self@.decide.parameters,
    {
        self.decide.parameters.clone()
    }

    /// The stimulus root location, passed through verbatim.
    pub fn stimulus_root(&self) -> (r: String)
        ensures
            r@ == self@.decide.stimulus_root,
    {
        self.decide.stimulus_root.clone()
    }

    /// The two declared response choices, in declaration order.
    pub fn choices(&self) -> (r: Vec<Response>)
        ensures
            r@ == seq![self@.decide.choices.0, self@.decide.choices.1],
    {
        let mut r: Vec<Response> = Vec::new();
        r.push(self.decide.choices.0);
        r.push(self.decide.choices.1);
        proof {
            assert(r@ =~= seq![self@.decide.choices.0, self@.decide.choices.1]);
        }
        r
    }

    pub fn decisive_attribute(&self) -> (r: &AttributeLabel)
        ensures
            r@ == self@.stimuli.decisive,
    {
        self.stimuli.decisive_attribute()
    }
}

} // verus!
