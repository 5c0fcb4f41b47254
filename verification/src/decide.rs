//! The generated configuration documents: responses, outcomes with
//! fixed-point probabilities, and the per-stimulus response tables.
use crate::attribute::{AttributeValue, StimulusAttribute};
use crate::choices::{lookup_choice, CorrectChoices};
use crate::stimulus::{lookup_attr, render_bindings, Stimulus};
use crate::template::format_template;
use crate::Error;
use vstd::prelude::*;

verus! {

/// The closed set of responses the controller can observe: two active
/// choices, a neutral center response, and a timeout.
#[derive(Debug, Clone, Copy, PartialEq, Eq, Structural, Hash)]
pub enum Response {
    PeckLeft,
    PeckCenter,
    PeckRight,
    Timeout,
}

impl DeepView for Response {
    type V = Response;

    open spec fn deep_view(&self) -> Response {
        *self
    }
}

impl Response {
    /// Every response, in declaration order.
    pub fn all() -> (r: Vec<Response>)
        ensures
            r@ == seq![
                Response::PeckLeft,
                Response::PeckCenter,
                Response::PeckRight,
                Response::Timeout,
            ],
    {
        let mut r: Vec<Response> = Vec::new();
        r.push(Response::PeckLeft);
        r.push(Response::PeckCenter);
        r.push(Response::PeckRight);
        r.push(Response::Timeout);
        proof {
            assert(r@ =~= seq![
                Response::PeckLeft,
                Response::PeckCenter,
                Response::PeckRight,
                Response::Timeout,
            ]);
        }
        r
    }

    /// The response's name in the document encoding.
    pub fn name(&self) -> (r: &'static str)
        ensures
            r@ == response_name(*self),
    {
        match self {
            Response::PeckLeft => "peck_left",
            Response::PeckCenter => "peck_center",
            Response::PeckRight => "peck_right",
            Response::Timeout => "timeout",
        }
    }
}

/// The document-encoding name of each response.
pub open spec fn response_name(r: Response) -> Seq<char> {
    match r {
        Response::PeckLeft => "peck_left"@,
        Response::PeckCenter => "peck_center"@,
        Response::PeckRight => "peck_right"@,
        Response::Timeout => "timeout"@,
    }
}

/// How a response to a stimulus is classified.
pub enum ResponseMeaning {
    Correct,
    Incorrect,
    Neutral,
}

/// The scale of the fixed-point probability representation: values are
/// multiples of `1 / 4096`.
pub const DECIMAL_DENOMINATOR: i64 = 4096;

/// An exact fixed-point decimal: the represented value is `raw / 4096`.
/// Probabilities are held this way so that repeated encodings are
/// byte-identical, with no floating-point rounding.
#[derive(Debug, Clone, Copy, PartialEq, Eq, Structural, Hash)]
pub struct Decimal {
    pub raw: i32,
}

impl Decimal {
    pub fn from_raw(raw: i32) -> (r: Self)
        ensures
            r.raw == raw,
    {
        Decimal { raw }
    }

    pub fn raw(&self) -> (r: i32)
        ensures
            r == self.raw,
    {
        self.raw
    }

    /// The probability one.
    pub fn one() -> (r: Self)
        ensures
            r.raw == 4096,
    {
        Decimal { raw: 4096 }
    }
}

/// What follows from a response to a stimulus: whether it is correct, and
/// the reward and punishment probabilities.
#[derive(Debug, Clone, Copy, PartialEq, Eq, Structural, Hash)]
pub struct Outcome {
    pub p_reward: Option<Decimal>,
    pub p_punish: Option<Decimal>,
    pub correct: bool,
}

impl Outcome {
    /// The outcome that follows from a response's meaning: a correct
    /// response is rewarded with probability one, an incorrect one is
    /// punished with probability one, and a neutral one is neither.
    pub fn from(meaning: ResponseMeaning) -> (r: Self)
        ensures
            r == outcome_of(meaning),
    {
        match meaning {
            ResponseMeaning::Correct => Outcome {
                p_reward: Some(Decimal { raw: 4096 }),
                p_punish: None,
                correct: true,
            },
            ResponseMeaning::Incorrect => Outcome {
                p_punish: Some(Decimal { raw: 4096 }),
                p_reward: None,
                correct: false,
            },
            ResponseMeaning::Neutral => Outcome {
                p_punish: None,
                p_reward: None,
                correct: false,
            },
        }
    }
}

/// The outcome that follows from each response meaning.
pub open spec fn outcome_of(meaning: ResponseMeaning) -> Outcome {
    match meaning {
        ResponseMeaning::Correct => Outcome {
            p_reward: Some(Decimal { raw: 4096 }),
            p_punish: None,
            correct: true,
        },
        ResponseMeaning::Incorrect => Outcome {
            p_punish: Some(Decimal { raw: 4096 }),
            p_reward: None,
            correct: false,
        },
        ResponseMeaning::Neutral => Outcome {
            p_punish: None,
            p_reward: None,
            correct: false,
        },
    }
}

/// Every response, as a sequence, in declaration order.
pub open spec fn all_responses() -> Seq<Response> {
    seq![Response::PeckLeft, Response::PeckCenter, Response::PeckRight, Response::Timeout]
}

/// A response's meaning for a stimulus: correct exactly when it is the
/// stimulus's assigned response.
pub open spec fn meaning_of(r: Response, correct: Response) -> ResponseMeaning {
    if r == correct {
        ResponseMeaning::Correct
    } else {
        ResponseMeaning::Incorrect
    }
}

/// The outcome table of a stimulus whose assigned response is `correct`:
/// one entry per response, in declaration order.
pub open spec fn response_table(correct: Response) -> Seq<(Response, Outcome)> {
    all_responses().map_values(|r: Response| (r, outcome_of(meaning_of(r, correct))))
}

/// Mathematical value of a `StimulusConfig`.
pub struct StimulusConfigValue {
    pub name: Seq<char>,
    pub frequency: u32,
    pub responses: Seq<(Response, Outcome)>,
    pub category: Option<AttributeValue>,
}

/// One stimulus's entry in a configuration document: its rendered name, a
/// frequency weight, the outcome of every response, and an optional
/// category label.
#[derive(Debug, PartialEq)]
pub struct StimulusConfig {
    pub name: String,
    pub frequency: u32,
    pub responses: Vec<(Response, Outcome)>,
    pub category: Option<StimulusAttribute>,
}

impl View for StimulusConfig {
    type V = StimulusConfigValue;

    open spec fn view(&self) -> StimulusConfigValue {
        StimulusConfigValue {
            name: self.name@,
            frequency: self.frequency,
            responses: self.responses.deep_view(),
            category: match self.category {
                None => None,
                Some(ref c) => Some(c@),
            },
        }
    }
}

impl DeepView for StimulusConfig {
    type V = StimulusConfigValue;

    open spec fn deep_view(&self) -> StimulusConfigValue {
        self@
    }
}

impl DeepView for Outcome {
    type V = Outcome;

    open spec fn deep_view(&self) -> Outcome {
        *self
    }
}

impl StimulusConfig {
    /// The entry for one stimulus: every response paired with its
    /// outcome, correct exactly for the assigned response, under the
    /// stimulus's rendered display name. Fails — naming the decisive
    /// value — when the stimulus has no assigned response, or with a
    /// format error when the name template does not render.
    pub fn from(stim: &Stimulus, correct_choices: &CorrectChoices, format: &str) -> (r: Result<
        Self,
        Error,
    >)
        requires
            lookup_attr(stim@.attributes, stim@.decisive) is Some,
        ensures
            match r {
                Ok(sc) => {
                    &&& lookup_choice(
                        correct_choices@,
                        lookup_attr(stim@.attributes, stim@.decisive).unwrap(),
                    ) matches Some(correct)
                    &&& format_template(format@, render_bindings(stim@.attributes)) matches Some(
                        nm,
                    )
                    &&& sc@ == (StimulusConfigValue {
                        name: nm,
                        frequency: 1,
                        responses: response_table(correct),
                        category: None,
                    })
                },
                Err(e) => match e@ {
                    crate::ErrorValue::StimMissingFromCorrectChoices(v) => v == lookup_attr(
                        stim@.attributes,
                        stim@.decisive,
                    ).unwrap() && lookup_choice(correct_choices@, v) is None,
                    crate::ErrorValue::Format => lookup_choice(
                        correct_choices@,
                        lookup_attr(stim@.attributes, stim@.decisive).unwrap(),
                    ) is Some && format_template(
                        format@,
                        render_bindings(stim@.attributes),
                    ) is None,
                    _ => false,
                },
            },
    {
        let correct = match correct_choices.get(stim) {
            Ok(resp) => *resp,
            Err(e) => {
                return Err(e);
            },
        };
        let all = Response::all();
        let mut responses: Vec<(Response, Outcome)> = Vec::new();
        let mut i: usize = 0;
        proof {
            assert(responses.deep_view() =~= response_table(correct).take(0));
        }
        while i < all.len()
            invariant
                i <= all@.len(),
                all@ == all_responses(),
                responses@.len() == i,
                responses.deep_view() == response_table(correct).take(i as int),
            decreases all@.len() - i,
        {
            let response = all[i];
            let outcome = if response == correct {
                Outcome::from(ResponseMeaning::Correct)
            } else {
                Outcome::from(ResponseMeaning::Incorrect)
            };
            let ghost prevd = responses.deep_view();
            responses.push((response, outcome));
            i += 1;
            proof {
                let rd = responses.deep_view();
                let target = response_table(correct).take(i as int);
                assert forall|m: int| 0 <= m < i implies rd[m] == target[m] by {
                    assert(rd[m] == responses@[m].deep_view());
                    assert(response_table(correct)[m] == (all_responses()[m], outcome_of(
                        meaning_of(all_responses()[m], correct),
                    )));
                    if m < i - 1 {
                        assert(prevd[m] == responses@[m].deep_view());
                        assert(prevd[m] == response_table(correct).take(i as int - 1)[m]);
                    }
                }
                assert(rd =~= target);
            }
        }
        proof {
            assert(response_table(correct).take(all@.len() as int) =~= response_table(correct));
        }
        let name = match stim.render(format) {
            Ok(name) => name,
            Err(e) => {
                return Err(e);
            },
        };
        Ok(StimulusConfig { name, frequency: 1, responses, category: None })
    }

    /// A copy with the same content.
    pub fn duplicate(&self) -> (r: Self)
        ensures
            r@ == self@,
    {
        let mut responses: Vec<(Response, Outcome)> = Vec::new();
        let mut i: usize = 0;
        while i < self.responses.len()
            invariant
                i <= self.responses@.len(),
                responses@.len() == i,
                responses.deep_view() == self.responses.deep_view().take(i as int),
            decreases self.responses@.len() - i,
        {
            responses.push(self.responses[i]);
            i += 1;
            proof {
                let rd = responses.deep_view();
                let sd = self.responses.deep_view();
                assert forall|m: int| 0 <= m < i implies rd[m] == sd.take(i as int)[m] by {
                    assert(rd[m] == responses@[m].deep_view());
                    assert(sd[m] == self.responses@[m].deep_view());
                }
                assert(rd =~= sd.take(i as int));
            }
        }
        proof {
            assert(self.responses.deep_view().take(self.responses@.len() as int)
                =~= self.responses.deep_view());
        }
        let category = match &self.category {
            None => None,
            Some(c) => Some(c.duplicate()),
        };
        StimulusConfig { name: self.name.clone(), frequency: self.frequency, responses, category }
    }

    /// Whether the two entries have the same content.
    pub fn same_config(&self, other: &StimulusConfig) -> (r: bool)
        ensures
            r == (self@ == other@),
    {
        if self.name != other.name {
            return false;
        }
        if self.frequency != other.frequency {
            return false;
        }
        if self.responses.len() != other.responses.len() {
            proof {
                assert(self@.responses.len() != other@.responses.len());
            }
            return false;
        }
        let mut i: usize = 0;
        while i < self.responses.len()
            invariant
                i <= self.responses@.len(),
                self.responses@.len() == other.responses@.len(),
                forall|m: int|
                    0 <= m < i ==> self.responses.deep_view()[m]
                        == other.responses.deep_view()[m],
            decreases self.responses@.len() - i,
        {
            proof {
                assert(self.responses.deep_view()[i as int]
                    == self.responses@[i as int].deep_view());
                assert(other.responses.deep_view()[i as int]
                    == other.responses@[i as int].deep_view());
            }
            let a = self.responses[i];
            let b = other.responses[i];
            if a.0 != b.0 || a.1 != b.1 {
                proof {
                    assert(self@.responses[i as int] != other@.responses[i as int]);
                }
                return false;
            }
            i += 1;
        }
        proof {
            assert(self@.responses =~= other@.responses);
        }
        match (&self.category, &other.category) {
            (None, None) => true,
            (Some(a), Some(b)) => a.same_as(b),
            _ => false,
        }
    }
}

/// The names of the entries, in order.
pub open spec fn stim_names(s: Seq<StimulusConfigValue>) -> Seq<Seq<char>> {
    s.map_values(|sc: StimulusConfigValue| sc.name)
}

/// The entries with every repeated name dropped: the first entry under
/// each name wins.
pub open spec fn dedup_by_name(s: Seq<StimulusConfigValue>) -> Seq<StimulusConfigValue>
    decreases s.len(),
{
    if s.len() == 0 {
        s
    } else {
        let d = dedup_by_name(s.drop_last());
        if stim_names(d).contains(s.last().name) {
            d
        } else {
            d.push(s.last())
        }
    }
}

/// Mathematical value of a `DecideConfig`.
pub struct DecideConfigValue {
    pub parameters: Seq<char>,
    pub stimulus_root: Seq<char>,
    pub stimuli: Seq<StimulusConfigValue>,
}

/// One generated configuration document: the global parameters and
/// stimulus root passed through verbatim, and one entry per stimulus,
/// keyed by name.
#[derive(Debug, PartialEq)]
pub struct DecideConfig {
    pub parameters: String,
    pub stimulus_root: String,
    pub stimuli: Vec<StimulusConfig>,
}

impl View for DecideConfig {
    type V = DecideConfigValue;

    open spec fn view(&self) -> DecideConfigValue {
        DecideConfigValue {
            parameters: self.parameters@,
            stimulus_root: self.stimulus_root@,
            stimuli: self.stimuli.deep_view(),
        }
    }
}

impl DeepView for DecideConfig {
    type V = DecideConfigValue;

    open spec fn deep_view(&self) -> DecideConfigValue {
        self@
    }
}

fn name_present(acc: &Vec<StimulusConfig>, name: &String) -> (r: bool)
    ensures
        r == stim_names(acc.deep_view()).contains(name@),
{
    let mut i: usize = 0;
    while i < acc.len()
        invariant
            i <= acc@.len(),
            forall|m: int| 0 <= m < i ==> stim_names(acc.deep_view())[m] != name@,
        decreases acc@.len() - i,
    {
        proof {
            assert(acc.deep_view()[i as int] == acc@[i as int].deep_view());
            assert(stim_names(acc.deep_view())[i as int] == acc.deep_view()[i as int].name);
        }
        if acc[i].name == *name {
            return true;
        }
        i += 1;
    }
    proof {
        if stim_names(acc.deep_view()).contains(name@) {
            let m = choose|m: int|
                0 <= m < stim_names(acc.deep_view()).len() && stim_names(acc.deep_view())[m]
                    == name@;
        }
    }
    false
}

impl DecideConfig {
    /// Assembles a document from per-stimulus entries: entries are keyed
    /// by name, and the first entry under each name wins.
    pub fn new(stimuli: Vec<StimulusConfig>, stimulus_root: String, parameters: String) -> (r:
        Self)
        ensures
            r@ == (DecideConfigValue {
                parameters: parameters@,
                stimulus_root: stimulus_root@,
                stimuli: dedup_by_name(stimuli.deep_view()),
            }),
    {
        let mut kept: Vec<StimulusConfig> = Vec::new();
        let mut i: usize = 0;
        proof {
            assert(stimuli.deep_view().take(0) =~= Seq::<StimulusConfigValue>::empty());
            assert(kept.deep_view() =~= dedup_by_name(stimuli.deep_view().take(0)));
        }
        while i < stimuli.len()
            invariant
                i <= stimuli@.len(),
                kept.deep_view() == dedup_by_name(stimuli.deep_view().take(i as int)),
            decreases stimuli@.len() - i,
        {
            proof {
                assert(stimuli.deep_view()[i as int] == stimuli@[i as int].deep_view());
            }
            let ghost prevd = kept.deep_view();
            if !name_present(&kept, &stimuli[i].name) {
                kept.push(stimuli[i].duplicate());
            }
            i += 1;
            proof {
                let sd = stimuli.deep_view();
                assert(sd.take(i as int).drop_last() =~= sd.take(i as int - 1));
                assert(sd.take(i as int).last() == sd[i as int - 1]);
                assert(sd[i as int - 1].name == stimuli@[i as int - 1].deep_view().name);
                if !stim_names(prevd).contains(sd[i as int - 1].name) {
                    let kd = kept.deep_view();
                    assert forall|m: int| 0 <= m < kd.len() implies kd[m] == prevd.push(
                        sd[i as int - 1],
                    )[m] by {
                        assert(kd[m] == kept@[m].deep_view());
                        if m < kd.len() - 1 {
                            assert(prevd[m] == kept@[m].deep_view());
                        }
                    }
                    assert(kd =~= prevd.push(sd[i as int - 1]));
                }
                assert(kept.deep_view() == dedup_by_name(sd.take(i as int)));
            }
        }
        proof {
            assert(stimuli.deep_view().take(stimuli@.len() as int) =~= stimuli.deep_view());
        }
        DecideConfig { parameters, stimulus_root, stimuli: kept }
    }

    /// The comparison mode: whether the two documents have the same
    /// parameters, the same stimulus root, and the same per-stimulus
    /// entries, in any order.
    pub fn same_document(&self, other: &DecideConfig) -> (r: bool)
        ensures
            r == document_equal(self@, other@),
    {
        if self.parameters != other.parameters {
            return false;
        }
        if self.stimulus_root != other.stimulus_root {
            return false;
        }
        if self.stimuli.len() != other.stimuli.len() {
            proof {
                assert(self@.stimuli.len() != other@.stimuli.len());
            }
            return false;
        }
        let mut i: usize = 0;
        while i < self.stimuli.len()
            invariant
                i <= self.stimuli@.len(),
                self.stimuli@.len() == other.stimuli@.len(),
                self.parameters@ == other.parameters@,
                self.stimulus_root@ == other.stimulus_root@,
                forall|m: int|
                    0 <= m < i ==> other.stimuli.deep_view().contains(
                        #[trigger] self.stimuli.deep_view()[m],
                    ),
            decreases self.stimuli@.len() - i,
        {
            proof {
                assert(self.stimuli.deep_view()[i as int] == self.stimuli@[i as int].deep_view());
            }
            if !Self::holds_config(&other.stimuli, &self.stimuli[i]) {
                proof {
                    assert(!document_equal(self@, other@));
                }
                return false;
            }
            i += 1;
        }
        let mut j: usize = 0;
        while j < other.stimuli.len()
            invariant
                j <= other.stimuli@.len(),
                self.stimuli@.len() == other.stimuli@.len(),
                self.parameters@ == other.parameters@,
                self.stimulus_root@ == other.stimulus_root@,
                forall|m: int|
                    0 <= m < self.stimuli.deep_view().len() ==> other.stimuli.deep_view().contains(
                        #[trigger] self.stimuli.deep_view()[m],
                    ),
                forall|m: int|
                    0 <= m < j ==> self.stimuli.deep_view().contains(
                        #[trigger] other.stimuli.deep_view()[m],
                    ),
            decreases other.stimuli@.len() - j,
        {
            proof {
                assert(other.stimuli.deep_view()[j as int]
                    == other.stimuli@[j as int].deep_view());
            }
            if !Self::holds_config(&self.stimuli, &other.stimuli[j]) {
                proof {
                    assert(!document_equal(self@, other@));
                }
                return false;
            }
            j += 1;
        }
        true
    }

    fn holds_config(v: &Vec<StimulusConfig>, sc: &StimulusConfig) -> (r: bool)
        ensures
            r == v.deep_view().contains(sc@),
    {
        let mut i: usize = 0;
        while i < v.len()
            invariant
                i <= v@.len(),
                forall|m: int| 0 <= m < i ==> v.deep_view()[m] != sc@,
            decreases v@.len() - i,
        {
            proof {
                assert(v.deep_view()[i as int] == v@[i as int].deep_view());
            }
            if v[i].same_config(sc) {
                return true;
            }
            i += 1;
        }
        proof {
            if v.deep_view().contains(sc@) {
                let m = choose|m: int| 0 <= m < v.deep_view().len() && v.deep_view()[m] == sc@;
            }
        }
        false
    }
}

/// Deep structural equality of two documents, with the per-stimulus
/// entries compared as an unordered collection.
pub open spec fn document_equal(a: DecideConfigValue, b: DecideConfigValue) -> bool {
    &&& a.parameters == b.parameters
    &&& a.stimulus_root == b.stimulus_root
    &&& a.stimuli.len() == b.stimuli.len()
    &&& forall|i: int| 0 <= i < a.stimuli.len() ==> b.stimuli.contains(#[trigger] a.stimuli[i])
    &&& forall|j: int| 0 <= j < b.stimuli.len() ==> a.stimuli.contains(#[trigger] b.stimuli[j])
}

} // verus!
