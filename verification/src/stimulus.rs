//! The stimulus space: declared attribute domains, the enumeration of every
//! stimulus as one point of their cartesian product, and matching of
//! stimuli against attribute bindings.
use crate::attribute::{value_le, value_text, AttributeLabel, AttributeValue, StimulusAttribute};
use crate::product::{lemma_product_elem, product, product_exec};
use crate::template::{format_template, format_template_exec};
use crate::text::chars_of;
use crate::text::string_from_chars;
use crate::Error;
use vstd::prelude::*;

verus! {

/// Mathematical value of a `Stimulus`: its label-to-value bindings in
/// declaration order, and the decisive label.
pub struct StimulusValue {
    pub attributes: Seq<(Seq<char>, AttributeValue)>,
    pub decisive: Seq<char>,
}

/// The value bound to `label`: the first binding with that label wins.
pub open spec fn lookup_attr(attrs: Seq<(Seq<char>, AttributeValue)>, label: Seq<char>) -> Option<
    AttributeValue,
>
    decreases attrs.len(),
{
    if attrs.len() == 0 {
        None
    } else if attrs[0].0 == label {
        Some(attrs[0].1)
    } else {
        lookup_attr(attrs.drop_first(), label)
    }
}

/// Whether a stimulus matches one binding: its value for `label` equals
/// `value`, or is at most `value` when `or_equal_below` is set; a stimulus
/// without the label never matches.
pub open spec fn stim_matches(
    s: StimulusValue,
    label: Seq<char>,
    value: AttributeValue,
    or_equal_below: bool,
) -> bool {
    match lookup_attr(s.attributes, label) {
        None => false,
        Some(a) => if or_equal_below {
            value_le(a, value)
        } else {
            a == value
        },
    }
}

/// An immutable binding of every attribute label to one value, together
/// with the decisive label.
#[derive(Debug, Clone, PartialEq)]
pub struct Stimulus {
    pub attributes: Vec<(AttributeLabel, StimulusAttribute)>,
    pub decisive: AttributeLabel,
}

impl View for Stimulus {
    type V = StimulusValue;

    open spec fn view(&self) -> StimulusValue {
        StimulusValue { attributes: self.attributes.deep_view(), decisive: self.decisive@ }
    }
}

impl DeepView for Stimulus {
    type V = StimulusValue;

    open spec fn deep_view(&self) -> StimulusValue {
        self@
    }
}

impl Stimulus {
    pub fn new(
        attributes: Vec<(AttributeLabel, StimulusAttribute)>,
        decisive_attribute: AttributeLabel,
    ) -> (r: Self)
        ensures
            r@ == (StimulusValue {
                attributes: attributes.deep_view(),
                decisive: decisive_attribute@,
            }),
    {
        Stimulus { attributes, decisive: decisive_attribute }
    }

    /// The value bound to the decisive label. A stimulus built from a
    /// space that declares the decisive label always has one.
    pub fn decisive_attribute(&self) -> (r: &StimulusAttribute)
        requires
            lookup_attr(self@.attributes, self@.decisive) is Some,
        ensures
            lookup_attr(self@.attributes, self@.decisive) == Some(r@),
    {
        let mut i: usize = 0;
        proof {
            assert(self@.attributes.skip(0) =~= self@.attributes);
        }
        loop
            invariant
                i <= self.attributes@.len(),
                lookup_attr(self@.attributes, self@.decisive) == lookup_attr(
                    self@.attributes.skip(i as int),
                    self@.decisive,
                ),
                lookup_attr(self@.attributes, self@.decisive) is Some,
            decreases self.attributes@.len() - i,
        {
            let n = self.attributes.len();
            proof {
                if i == n {
                    assert(self@.attributes.skip(i as int).len() == 0);
                    assert(false);
                }
            }
            proof {
                assert(self@.attributes.skip(i as int)[0] == self@.attributes[i as int]);
                assert(self@.attributes.skip(i as int).drop_first() =~= self@.attributes.skip(
                    i as int + 1,
                ));
            }
            if self.attributes[i].0.same_as(&self.decisive) {
                return &self.attributes[i].1;
            }
            i += 1;
        }
    }

    /// Whether this stimulus matches the binding `(label, value)`, with
    /// inclusive-less-than comparison when `or_equal_below` is set.
    /// Ordering a non-numeric value is invalid, so the precondition rules
    /// out a comparison that would reach one.
    pub fn matches(
        &self,
        label: &AttributeLabel,
        value: &StimulusAttribute,
        or_equal_below: bool,
    ) -> (r: bool)
        requires
            (or_equal_below && lookup_attr(self@.attributes, label@) is Some) ==> (lookup_attr(
                self@.attributes,
                label@,
            ).unwrap() is Numeric && value@ is Numeric),
        ensures
            r == stim_matches(self@, label@, value@, or_equal_below),
    {
        let mut i: usize = 0;
        proof {
            assert(self@.attributes.skip(0) =~= self@.attributes);
        }
        loop
            invariant
                i <= self.attributes@.len(),
                lookup_attr(self@.attributes, label@) == lookup_attr(
                    self@.attributes.skip(i as int),
                    label@,
                ),
                (or_equal_below && lookup_attr(self@.attributes, label@) is Some) ==> (
                lookup_attr(self@.attributes, label@).unwrap() is Numeric
                    && value@ is Numeric),
            decreases self.attributes@.len() - i,
        {
            if i >= self.attributes.len() {
                proof {
                    assert(self@.attributes.skip(i as int).len() == 0);
                }
                return false;
            }
            proof {
                assert(self@.attributes.skip(i as int)[0] == self@.attributes[i as int]);
                assert(self@.attributes.skip(i as int).drop_first() =~= self@.attributes.skip(
                    i as int + 1,
                ));
            }
            if self.attributes[i].0.same_as(label) {
                let a = &self.attributes[i].1;
                return if or_equal_below {
                    a.le(value)
                } else {
                    a.same_as(value)
                };
            }
            i += 1;
        }
    }

    /// A copy with the same bindings and decisive label.
    pub fn duplicate(&self) -> (r: Self)
        ensures
            r@ == self@,
    {
        let mut attrs: Vec<(AttributeLabel, StimulusAttribute)> = Vec::new();
        let mut i: usize = 0;
        while i < self.attributes.len()
            invariant
                i <= self.attributes@.len(),
                attrs@.len() == i,
                attrs.deep_view() == self.attributes.deep_view().take(i as int),
            decreases self.attributes@.len() - i,
        {
            let p = (self.attributes[i].0.duplicate(), self.attributes[i].1.duplicate());
            attrs.push(p);
            i += 1;
            proof {
                let ad = attrs.deep_view();
                let sd = self.attributes.deep_view();
                assert forall|m: int| 0 <= m < i implies ad[m] == sd.take(i as int)[m] by {
                    assert(ad[m] == attrs@[m].deep_view());
                    assert(sd[m] == self.attributes@[m].deep_view());
                }
                assert(ad =~= sd.take(i as int));
            }
        }
        proof {
            assert(self.attributes.deep_view().take(self.attributes@.len() as int)
                =~= self.attributes.deep_view());
        }
        Stimulus { attributes: attrs, decisive: self.decisive.duplicate() }
    }

    /// The bindings handed to the name template: each attribute's label
    /// paired with its value's text form.
    pub fn template_bindings(&self) -> (r: Vec<(String, String)>)
        ensures
            r.deep_view() == render_bindings(self@.attributes),
    {
        let mut r: Vec<(String, String)> = Vec::new();
        let mut i: usize = 0;
        while i < self.attributes.len()
            invariant
                i <= self.attributes@.len(),
                r@.len() == i,
                r.deep_view() == render_bindings(self@.attributes.take(i as int)),
            decreases self.attributes@.len() - i,
        {
            let label = self.attributes[i].0.text().to_owned();
            let value = self.attributes[i].1.to_text();
            r.push((label, value));
            i += 1;
            proof {
                let rd = r.deep_view();
                let target = render_bindings(self@.attributes.take(i as int));
                assert forall|m: int| 0 <= m < i implies rd[m] == target[m] by {
                    assert(rd[m] == r@[m].deep_view());
                    assert(self@.attributes.take(i as int)[m] == self@.attributes[m]);
                    assert(self@.attributes[m] == self.attributes@[m].deep_view());
                    if m < i - 1 {
                        assert(r@[m].deep_view() == render_bindings(
                            self@.attributes.take(i as int - 1),
                        )[m]);
                        assert(self@.attributes.take(i as int - 1)[m] == self@.attributes[m]);
                    }
                }
                assert(rd =~= target);
            }
        }
        proof {
            assert(self@.attributes.take(self.attributes@.len() as int) =~= self@.attributes);
        }
        r
    }

    /// The canonical display name: the template with every `{label}`
    /// replaced by this stimulus's value for that label.
    pub fn render(&self, template: &str) -> (r: Result<String, Error>)
        ensures
            match r {
                Ok(s) => format_template(template@, render_bindings(self@.attributes)) == Some(
                    s@,
                ),
                Err(e) => e == Error::Format && format_template(
                    template@,
                    render_bindings(self@.attributes),
                ) is None,
            },
    {
        let bindings = self.template_bindings();
        let chars = chars_of(template);
        match format_template_exec(&chars, &bindings) {
            Some(out) => Ok(string_from_chars(&out)),
            None => Err(Error::Format),
        }
    }
}

/// The name-template bindings derived from a stimulus's attributes.
pub open spec fn render_bindings(attrs: Seq<(Seq<char>, AttributeValue)>) -> Seq<
    (Seq<char>, Seq<char>),
> {
    attrs.map_values(|p: (Seq<char>, AttributeValue)| (p.0, value_text(p.1)))
}

/// Mathematical value of an `AttributeConfig`.
pub struct AttributeConfigValue {
    pub values: Seq<AttributeValue>,
    pub inclusive_less_than: bool,
}

/// The ordered domain of one attribute, and whether matching against it
/// uses inclusive-less-than semantics instead of equality.
#[derive(Debug, Clone, PartialEq)]
pub struct AttributeConfig {
    pub values: Vec<StimulusAttribute>,
    pub inclusive_less_than: bool,
}

impl View for AttributeConfig {
    type V = AttributeConfigValue;

    open spec fn view(&self) -> AttributeConfigValue {
        AttributeConfigValue {
            values: self.values.deep_view(),
            inclusive_less_than: self.inclusive_less_than,
        }
    }
}

impl DeepView for AttributeConfig {
    type V = AttributeConfigValue;

    open spec fn deep_view(&self) -> AttributeConfigValue {
        self@
    }
}

impl AttributeConfig {
    pub fn new(values: Vec<StimulusAttribute>, inclusive_less_than: bool) -> (r: Self)
        ensures
            r@ == (AttributeConfigValue {
                values: values.deep_view(),
                inclusive_less_than,
            }),
    {
        AttributeConfig { values, inclusive_less_than }
    }
}

/// Mathematical value of a `StimuliConfig`.
pub struct StimuliConfigValue {
    pub format: Seq<char>,
    pub decisive: Seq<char>,
    pub values: Seq<(Seq<char>, AttributeConfigValue)>,
}

/// The domain configuration bound to `label`: the first entry with that
/// label wins.
pub open spec fn lookup_config(
    values: Seq<(Seq<char>, AttributeConfigValue)>,
    label: Seq<char>,
) -> Option<AttributeConfigValue>
    decreases values.len(),
{
    if values.len() == 0 {
        None
    } else if values[0].0 == label {
        Some(values[0].1)
    } else {
        lookup_config(values.drop_first(), label)
    }
}

/// The declared attribute labels, in declaration order.
pub open spec fn config_labels(values: Seq<(Seq<char>, AttributeConfigValue)>) -> Seq<Seq<char>> {
    values.map_values(|p: (Seq<char>, AttributeConfigValue)| p.0)
}

/// The declared domains, in declaration order.
pub open spec fn config_lists(values: Seq<(Seq<char>, AttributeConfigValue)>) -> Seq<
    Seq<AttributeValue>,
> {
    values.map_values(|p: (Seq<char>, AttributeConfigValue)| p.1.values)
}

/// The stimulus at one combination of the declared domains.
pub open spec fn zip_attrs(labels: Seq<Seq<char>>, combo: Seq<AttributeValue>) -> Seq<
    (Seq<char>, AttributeValue),
> {
    Seq::new(labels.len(), |i: int| (labels[i], combo[i]))
}

/// Every stimulus of the attribute space: one per combination of the
/// declared domains, in row-major order.
pub open spec fn stimuli_space(c: StimuliConfigValue) -> Seq<StimulusValue> {
    product(config_lists(c.values)).map_values(
        |combo: Seq<AttributeValue>|
            StimulusValue { attributes: zip_attrs(config_labels(c.values), combo), decisive: c.decisive },
    )
}

/// The declared attribute space: a name template for stimuli, the decisive
/// attribute, and the ordered domain of each attribute label.
#[derive(Debug, Clone, PartialEq)]
pub struct StimuliConfig {
    pub format: String,
    pub decisive_attribute: AttributeLabel,
    pub values: Vec<(AttributeLabel, AttributeConfig)>,
}

impl View for StimuliConfig {
    type V = StimuliConfigValue;

    open spec fn view(&self) -> StimuliConfigValue {
        StimuliConfigValue {
            format: self.format@,
            decisive: self.decisive_attribute@,
            values: self.values.deep_view(),
        }
    }
}

impl StimuliConfig {
    /// Builds the attribute space, failing when the declared decisive
    /// attribute is not among the declared attribute labels.
    pub fn new(
        format: String,
        decisive_attribute: &str,
        values: Vec<(AttributeLabel, AttributeConfig)>,
    ) -> (r: Result<Self, Error>)
        ensures
            match r {
                Ok(c) => c@ == (StimuliConfigValue {
                    format: format@,
                    decisive: decisive_attribute@,
                    values: values.deep_view(),
                }) && lookup_config(values.deep_view(), decisive_attribute@) is Some,
                Err(e) => e == Error::DecisiveAttributeNotFound && lookup_config(
                    values.deep_view(),
                    decisive_attribute@,
                ) is None,
            },
    {
        let decisive = match Self::attribute_label_by_str(&values, decisive_attribute) {
            Some(label) => label.duplicate(),
            None => {
                return Err(Error::DecisiveAttributeNotFound);
            },
        };
        Ok(StimuliConfig { format, decisive_attribute: decisive, values })
    }

    /// The first declared label whose name is `label`, if any.
    pub fn attribute_label_by_str<'a>(
        attributes: &'a Vec<(AttributeLabel, AttributeConfig)>,
        label: &str,
    ) -> (r: Option<&'a AttributeLabel>)
        ensures
            match r {
                Some(l) => l@ == label@ && lookup_config(attributes.deep_view(), label@) is Some,
                None => lookup_config(attributes.deep_view(), label@) is None,
            },
    {
        let ghost av = attributes.deep_view();
        let mut i: usize = 0;
        proof {
            assert(av.skip(0) =~= av);
        }
        loop
            invariant
                i <= attributes@.len(),
                av == attributes.deep_view(),
                lookup_config(av, label@) == lookup_config(av.skip(i as int), label@),
            decreases attributes@.len() - i,
        {
            if i >= attributes.len() {
                proof {
                    assert(av.skip(i as int).len() == 0);
                }
                return None;
            }
            proof {
                assert(av.skip(i as int)[0] == av[i as int]);
                assert(av[i as int] == attributes@[i as int].deep_view());
                assert(av.skip(i as int).drop_first() =~= av.skip(i as int + 1));
            }
            if attributes[i].0.matches_str(label) {
                return Some(&attributes[i].0);
            }
            i += 1;
        }
    }

    /// The first declared label whose name is `label`, if any.
    pub fn label_by_str<'a>(&'a self, label: &str) -> (r: Option<&'a AttributeLabel>)
        ensures
            match r {
                Some(l) => l@ == label@ && lookup_config(self@.values, label@) is Some,
                None => lookup_config(self@.values, label@) is None,
            },
    {
        Self::attribute_label_by_str(&self.values, label)
    }

    pub fn decisive_attribute(&self) -> (r: &AttributeLabel)
        ensures
            r@ == self@.decisive,
    {
        &self.decisive_attribute
    }

    /// The declared attribute labels, in declaration order.
    pub fn attribute_labels(&self) -> (r: Vec<AttributeLabel>)
        ensures
            r.deep_view() == config_labels(self@.values),
    {
        let mut r: Vec<AttributeLabel> = Vec::new();
        let mut i: usize = 0;
        while i < self.values.len()
            invariant
                i <= self.values@.len(),
                r@.len() == i,
                r.deep_view() == config_labels(self@.values.take(i as int)),
            decreases self.values@.len() - i,
        {
            r.push(self.values[i].0.duplicate());
            i += 1;
            proof {
                let rd = r.deep_view();
                let target = config_labels(self@.values.take(i as int));
                assert forall|m: int| 0 <= m < i implies rd[m] == target[m] by {
                    assert(rd[m] == r@[m].deep_view());
                    assert(self@.values.take(i as int)[m] == self@.values[m]);
                    assert(self@.values[m] == self.values@[m].deep_view());
                    if m < i - 1 {
                        assert(r@[m].deep_view() == config_labels(
                            self@.values.take(i as int - 1),
                        )[m]);
                        assert(self@.values.take(i as int - 1)[m] == self@.values[m]);
                    }
                }
                assert(rd =~= target);
            }
        }
        proof {
            assert(self@.values.take(self.values@.len() as int) =~= self@.values);
            assert(config_labels(self@.values.take(self.values@.len() as int)) =~= config_labels(
                self@.values,
            ));
        }
        r
    }

    /// The domain configuration declared for `label`, if any.
    pub fn config_for<'a>(&'a self, label: &AttributeLabel) -> (r: Option<&'a AttributeConfig>)
        ensures
            match r {
                Some(c) => lookup_config(self@.values, label@) == Some(c@),
                None => lookup_config(self@.values, label@) is None,
            },
    {
        let ghost av = self@.values;
        let mut i: usize = 0;
        proof {
            assert(av.skip(0) =~= av);
        }
        loop
            invariant
                i <= self.values@.len(),
                av == self@.values,
                lookup_config(av, label@) == lookup_config(av.skip(i as int), label@),
            decreases self.values@.len() - i,
        {
            if i >= self.values.len() {
                proof {
                    assert(av.skip(i as int).len() == 0);
                }
                return None;
            }
            proof {
                assert(av.skip(i as int)[0] == av[i as int]);
                assert(av[i as int] == self.values@[i as int].deep_view());
                assert(av.skip(i as int).drop_first() =~= av.skip(i as int + 1));
            }
            if self.values[i].0.same_as(label) {
                return Some(&self.values[i].1);
            }
            i += 1;
        }
    }

    /// The ordered domain declared for `label`, or `None` when the label
    /// is undeclared.
    pub fn list_variants(&self, label: &AttributeLabel) -> (r: Option<Vec<StimulusAttribute>>)
        ensures
            match r {
                Some(vs) => lookup_config(self@.values, label@) matches Some(c) && vs.deep_view()
                    == c.values,
                None => lookup_config(self@.values, label@) is None,
            },
    {
        match self.config_for(label) {
            None => None,
            Some(config) => {
                let mut vs: Vec<StimulusAttribute> = Vec::new();
                let mut i: usize = 0;
                while i < config.values.len()
                    invariant
                        i <= config.values@.len(),
                        vs@.len() == i,
                        vs.deep_view() == config.values.deep_view().take(i as int),
                    decreases config.values@.len() - i,
                {
                    vs.push(config.values[i].duplicate());
                    i += 1;
                    proof {
                        let vd = vs.deep_view();
                        let cd = config.values.deep_view();
                        assert forall|m: int| 0 <= m < i implies vd[m] == cd.take(i as int)[m] by {
                            assert(vd[m] == vs@[m].deep_view());
                            assert(cd[m] == config.values@[m].deep_view());
                        }
                        assert(vd =~= cd.take(i as int));
                    }
                }
                proof {
                    assert(config.values.deep_view().take(config.values@.len() as int)
                        =~= config.values.deep_view());
                }
                Some(vs)
            },
        }
    }

    /// Every stimulus of the attribute space: the cartesian product of all
    /// declared domains, one stimulus per combination.
    pub fn stimuli(&self) -> (r: Vec<Stimulus>)
        ensures
            r.deep_view() == stimuli_space(self@),
    {
        let labels = self.attribute_labels();
        let mut lists: Vec<Vec<StimulusAttribute>> = Vec::new();
        let mut i: usize = 0;
        while i < self.values.len()
            invariant
                i <= self.values@.len(),
                lists@.len() == i,
                lists.deep_view() == config_lists(self@.values.take(i as int)),
            decreases self.values@.len() - i,
        {
            let mut vs: Vec<StimulusAttribute> = Vec::new();
            let mut k: usize = 0;
            let domain = &self.values[i].1.values;
            while k < domain.len()
                invariant
                    k <= domain@.len(),
                    vs@.len() == k,
                    vs.deep_view() == domain.deep_view().take(k as int),
                decreases domain@.len() - k,
            {
                vs.push(domain[k].duplicate());
                k += 1;
                proof {
                    let vd = vs.deep_view();
                    let dd = domain.deep_view();
                    assert forall|m: int| 0 <= m < k implies vd[m] == dd.take(k as int)[m] by {
                        assert(vd[m] == vs@[m].deep_view());
                        assert(dd[m] == domain@[m].deep_view());
                    }
                    assert(vd =~= dd.take(k as int));
                }
            }
            proof {
                assert(domain.deep_view().take(domain@.len() as int) =~= domain.deep_view());
            }
            lists.push(vs);
            i += 1;
            proof {
                let ld = lists.deep_view();
                let target = config_lists(self@.values.take(i as int));
                assert forall|m: int| 0 <= m < i implies ld[m] == target[m] by {
                    assert(ld[m] == lists@[m].deep_view());
                    assert(self@.values.take(i as int)[m] == self@.values[m]);
                    assert(self@.values[m] == self.values@[m].deep_view());
                    if m < i - 1 {
                        assert(lists@[m].deep_view() == config_lists(
                            self@.values.take(i as int - 1),
                        )[m]);
                        assert(self@.values.take(i as int - 1)[m] == self@.values[m]);
                    }
                }
                assert(ld =~= target);
            }
        }
        proof {
            assert(self@.values.take(self.values@.len() as int) =~= self@.values);
            assert(config_lists(self@.values.take(self.values@.len() as int)) =~= config_lists(
                self@.values,
            ));
        }
        let combos = product_exec(&lists);
        let ghost combos_spec = product(config_lists(self@.values));
        proof {
            assert(labels.deep_view().len() == labels@.len());
            assert(config_labels(self@.values).len() == self@.values.len());
            assert(self@.values.len() == self.values@.len());
        }
        let mut r: Vec<Stimulus> = Vec::new();
        let mut ci: usize = 0;
        while ci < combos.len()
            invariant
                ci <= combos@.len(),
                combos.deep_view() == combos_spec,
                combos_spec == product(config_lists(self@.values)),
                labels.deep_view() == config_labels(self@.values),
                labels@.len() == self.values@.len(),
                r@.len() == ci,
                r.deep_view() == stimuli_space(self@).take(ci as int),
            decreases combos@.len() - ci,
        {
            let combo = &combos[ci];
            proof {
                assert(combos.deep_view()[ci as int] == combos@[ci as int].deep_view());
                assert(combos_spec.contains(combos_spec[ci as int]));
                lemma_product_elem(config_lists(self@.values), combos_spec[ci as int]);
                assert(config_lists(self@.values).len() == self.values@.len());
                assert(combo.deep_view() == combos_spec[ci as int]);
                assert(combo@.len() == combo.deep_view().len());
            }
            let mut attrs: Vec<(AttributeLabel, StimulusAttribute)> = Vec::new();
            let mut k: usize = 0;
            while k < labels.len()
                invariant
                    k <= labels@.len(),
                    labels@.len() == combo@.len(),
                    labels.deep_view() == config_labels(self@.values),
                    combo.deep_view() == combos_spec[ci as int],
                    ci < combos_spec.len(),
                    attrs@.len() == k,
                    attrs.deep_view() == zip_attrs(
                        labels.deep_view(),
                        combo.deep_view(),
                    ).take(k as int),
                decreases labels@.len() - k,
            {
                let p = (labels[k].duplicate(), combo[k].duplicate());
                attrs.push(p);
                k += 1;
                proof {
                    let ad = attrs.deep_view();
                    let target = zip_attrs(labels.deep_view(), combo.deep_view()).take(k as int);
                    assert forall|m: int| 0 <= m < k implies ad[m] == target[m] by {
                        assert(ad[m] == attrs@[m].deep_view());
                        assert(labels.deep_view()[m] == labels@[m].deep_view());
                        assert(combo.deep_view()[m] == combo@[m].deep_view());
                    }
                    assert(ad =~= target);
                }
            }
            proof {
                assert(zip_attrs(labels.deep_view(), combo.deep_view()).take(
                    labels@.len() as int,
                ) =~= zip_attrs(labels.deep_view(), combo.deep_view()));
            }
            let stim = Stimulus::new(attrs, self.decisive_attribute.duplicate());
            r.push(stim);
            ci += 1;
            proof {
                let rd = r.deep_view();
                let target = stimuli_space(self@).take(ci as int);
                assert(stimuli_space(self@).len() == combos_spec.len());
                assert forall|m: int| 0 <= m < ci implies rd[m] == target[m] by {
                    assert(rd[m] == r@[m].deep_view());
                    assert(stimuli_space(self@)[m] == StimulusValue {
                        attributes: zip_attrs(config_labels(self@.values), combos_spec[m]),
                        decisive: self@.decisive,
                    });
                }
                assert(rd =~= target);
            }
        }
        proof {
            assert(stimuli_space(self@).len() == combos_spec.len());
            assert(stimuli_space(self@).take(combos@.len() as int) =~= stimuli_space(self@));
        }
        r
    }
}

/// Looking a label up in a stimulus of the space agrees with looking its
/// domain up in the configuration: the value found is drawn from the
/// domain declared for that label.
pub proof fn lemma_zip_lookup(
    values: Seq<(Seq<char>, AttributeConfigValue)>,
    combo: Seq<AttributeValue>,
    l: Seq<char>,
)
    requires
        combo.len() == values.len(),
        forall|i: int|
            0 <= i < values.len() ==> (#[trigger] values[i]).1.values.contains(combo[i]),
    ensures
        match lookup_attr(zip_attrs(config_labels(values), combo), l) {
            None => lookup_config(values, l) is None,
            Some(v) => lookup_config(values, l) matches Some(cfg) && cfg.values.contains(v),
        },
    decreases values.len(),
{
    let labels = config_labels(values);
    let z = zip_attrs(labels, combo);
    if values.len() == 0 {
        assert(z.len() == 0);
    } else {
        assert(z[0] == (labels[0], combo[0]));
        assert(labels[0] == values[0].0);
        if values[0].0 == l {
            assert(lookup_attr(z, l) == Some(combo[0]));
            assert(lookup_config(values, l) == Some(values[0].1));
        } else {
            assert(z.drop_first() =~= zip_attrs(
                config_labels(values.drop_first()),
                combo.drop_first(),
            )) by {
                assert forall|m: int| 0 <= m < z.len() - 1 implies z.drop_first()[m] == zip_attrs(
                    config_labels(values.drop_first()),
                    combo.drop_first(),
                )[m] by {
                    assert(config_labels(values.drop_first())[m] == values.drop_first()[m].0);
                    assert(values.drop_first()[m] == values[m + 1]);
                    assert(labels[m + 1] == values[m + 1].0);
                }
            }
            assert(forall|i: int|
                0 <= i < values.drop_first().len() ==> (#[trigger] values.drop_first()[i]).1.values.contains(
                    combo.drop_first()[i],
                ));
            lemma_zip_lookup(values.drop_first(), combo.drop_first(), l);
            assert(lookup_attr(z, l) == lookup_attr(z.drop_first(), l));
            assert(lookup_config(values, l) == lookup_config(values.drop_first(), l));
        }
    }
}

/// Every stimulus of the space binds, for each label, a value drawn from
/// that label's declared domain, and carries the configured decisive
/// label.
pub proof fn lemma_space_stimulus(c: StimuliConfigValue, st: StimulusValue, l: Seq<char>)
    requires
        stimuli_space(c).contains(st),
    ensures
        st.decisive == c.decisive,
        match lookup_attr(st.attributes, l) {
            None => lookup_config(c.values, l) is None,
            Some(v) => lookup_config(c.values, l) matches Some(cfg) && cfg.values.contains(v),
        },
{
    let combos = product(config_lists(c.values));
    let idx = choose|idx: int|
        0 <= idx < stimuli_space(c).len() && stimuli_space(c)[idx] == st;
    let combo = combos[idx];
    assert(st == StimulusValue {
        attributes: zip_attrs(config_labels(c.values), combo),
        decisive: c.decisive,
    });
    assert(combos.contains(combo));
    lemma_product_elem(config_lists(c.values), combo);
    assert(config_lists(c.values).len() == c.values.len());
    assert forall|i: int| 0 <= i < c.values.len() implies (#[trigger] c.values[i]).1.values.contains(
        combo[i],
    ) by {
        assert(config_lists(c.values)[i] == c.values[i].1.values);
    }
    lemma_zip_lookup(c.values, combo, l);
}

/// Whether the label of `binding` is matched with inclusive-less-than
/// semantics under configuration `c`.
pub open spec fn binding_flag(c: StimuliConfigValue, label: Seq<char>) -> bool {
    lookup_config(c.values, label) matches Some(a) && a.inclusive_less_than
}

/// Whether a stimulus matches every binding of the set.
pub open spec fn matches_all(
    c: StimuliConfigValue,
    s: StimulusValue,
    bindings: Seq<(Seq<char>, AttributeValue)>,
) -> bool {
    forall|j: int|
        0 <= j < bindings.len() ==> stim_matches(
            s,
            (#[trigger] bindings[j]).0,
            bindings[j].1,
            binding_flag(c, bindings[j].0),
        )
}

/// Whether comparing stimulus `s` against binding `b` never orders a
/// non-numeric value.
pub open spec fn binding_compatible(
    c: StimuliConfigValue,
    s: StimulusValue,
    b: (Seq<char>, AttributeValue),
) -> bool {
    (binding_flag(c, b.0) && lookup_attr(s.attributes, b.0) is Some) ==> (b.1 is Numeric
        && lookup_attr(s.attributes, b.0).unwrap() is Numeric)
}

fn matches_all_exec(
    config: &StimuliConfig,
    stim: &Stimulus,
    bindings: &Vec<(AttributeLabel, StimulusAttribute)>,
) -> (r: bool)
    requires
        forall|j: int|
            0 <= j < bindings.deep_view().len() ==> lookup_config(
                config@.values,
                (#[trigger] bindings.deep_view()[j]).0,
            ) is Some,
        forall|j: int|
            0 <= j < bindings.deep_view().len() ==> binding_compatible(
                config@,
                stim@,
                #[trigger] bindings.deep_view()[j],
            ),
    ensures
        r == matches_all(config@, stim@, bindings.deep_view()),
{
    let mut j: usize = 0;
    while j < bindings.len()
        invariant
            j <= bindings@.len(),
            forall|m: int|
                0 <= m < bindings.deep_view().len() ==> lookup_config(
                    config@.values,
                    (#[trigger] bindings.deep_view()[m]).0,
                ) is Some,
            forall|m: int|
                0 <= m < bindings.deep_view().len() ==> binding_compatible(
                    config@,
                    stim@,
                    #[trigger] bindings.deep_view()[m],
                ),
            forall|m: int|
                0 <= m < j ==> stim_matches(
                    stim@,
                    (#[trigger] bindings.deep_view()[m]).0,
                    bindings.deep_view()[m].1,
                    binding_flag(config@, bindings.deep_view()[m].0),
                ),
        decreases bindings@.len() - j,
    {
        let label = &bindings[j].0;
        let value = &bindings[j].1;
        proof {
            assert(bindings.deep_view()[j as int] == bindings@[j as int].deep_view());
        }
        let flag = match config.config_for(label) {
            Some(c) => c.inclusive_less_than,
            None => false,
        };
        proof {
            assert(flag == binding_flag(config@, label@));
        }
        if !stim.matches(label, value, flag) {
            return false;
        }
        j += 1;
    }
    true
}

/// The stimuli that match every binding of the set.
pub open spec fn filtered_stimuli(
    c: StimuliConfigValue,
    stims: Seq<StimulusValue>,
    b: Seq<(Seq<char>, AttributeValue)>,
) -> Seq<StimulusValue> {
    stims.filter(|st: StimulusValue| matches_all(c, st, b))
}

/// Filtering by an empty binding set returns the input unchanged.
pub proof fn lemma_filter_empty_bindings(c: StimuliConfigValue, stims: Seq<StimulusValue>)
    ensures
        filtered_stimuli(c, stims, Seq::empty()) == stims,
    decreases stims.len(),
{
    reveal(Seq::filter);
    if stims.len() == 0 {
        assert(filtered_stimuli(c, stims, Seq::empty()) =~= stims);
    } else {
        lemma_filter_empty_bindings(c, stims.drop_last());
        assert(matches_all(c, stims.last(), Seq::empty()));
        assert(filtered_stimuli(c, stims, Seq::empty()) =~= stims);
    }
}

/// Filtering by a binding set that names a label absent from every
/// stimulus returns nothing.
pub proof fn lemma_filter_absent_label(
    c: StimuliConfigValue,
    stims: Seq<StimulusValue>,
    bindings: Seq<(Seq<char>, AttributeValue)>,
    j: int,
)
    requires
        0 <= j < bindings.len(),
        forall|m: int|
            0 <= m < stims.len() ==> lookup_attr(
                (#[trigger] stims[m]).attributes,
                bindings[j].0,
            ) is None,
    ensures
        filtered_stimuli(c, stims, bindings) == Seq::<StimulusValue>::empty(),
    decreases stims.len(),
{
    reveal(Seq::filter);
    if stims.len() == 0 {
        assert(filtered_stimuli(c, stims, bindings) =~= Seq::<StimulusValue>::empty());
    } else {
        lemma_filter_absent_label(c, stims.drop_last(), bindings, j);
        assert(!stim_matches(
            stims.last(),
            bindings[j].0,
            bindings[j].1,
            binding_flag(c, bindings[j].0),
        ));
        assert(!matches_all(c, stims.last(), bindings));
        assert(filtered_stimuli(c, stims, bindings) =~= Seq::<StimulusValue>::empty());
    }
}

/// Whether no two declared attributes share a label.
pub open spec fn labels_unique(values: Seq<(Seq<char>, AttributeConfigValue)>) -> bool {
    forall|i: int, j: int|
        0 <= i < j < values.len() ==> (#[trigger] values[i]).0 != (#[trigger] values[j]).0
}

/// An element of a filtered sequence is an element of the original that
/// satisfies the predicate.
pub proof fn lemma_filter_elem<A>(s: Seq<A>, pred: spec_fn(A) -> bool, t: int)
    requires
        0 <= t < s.filter(pred).len(),
    ensures
        s.contains(s.filter(pred)[t]),
        pred(s.filter(pred)[t]),
    decreases s.len(),
{
    reveal(Seq::filter);
    if s.len() > 0 {
        let sub = s.drop_last().filter(pred);
        if t < sub.len() {
            lemma_filter_elem(s.drop_last(), pred, t);
            let e = sub[t];
            let m = choose|m: int| 0 <= m < s.drop_last().len() && s.drop_last()[m] == e;
            assert(s[m] == e);
        } else {
            assert(s.filter(pred)[t] == s.last());
            assert(s.contains(s.last()));
        }
    }
}

/// A declared attribute can be looked up by its label.
pub proof fn lemma_contains_lookup(
    values: Seq<(Seq<char>, AttributeConfigValue)>,
    p: (Seq<char>, AttributeConfigValue),
)
    requires
        values.contains(p),
    ensures
        lookup_config(values, p.0) is Some,
    decreases values.len(),
{
    if values[0].0 != p.0 {
        let m = choose|m: int| 0 <= m < values.len() && values[m] == p;
        assert(values.drop_first()[m - 1] == p);
        lemma_contains_lookup(values.drop_first(), p);
    }
}

/// With unique labels, looking a declared attribute up by its label finds
/// exactly its declared domain.
pub proof fn lemma_unique_lookup(
    values: Seq<(Seq<char>, AttributeConfigValue)>,
    p: (Seq<char>, AttributeConfigValue),
)
    requires
        labels_unique(values),
        values.contains(p),
    ensures
        lookup_config(values, p.0) == Some(p.1),
    decreases values.len(),
{
    let m = choose|m: int| 0 <= m < values.len() && values[m] == p;
    if values[0].0 == p.0 {
        assert(m == 0);
    } else {
        assert(values.drop_first()[m - 1] == p);
        assert(labels_unique(values.drop_first())) by {
            assert forall|i: int, j: int|
                0 <= i < j < values.drop_first().len() implies (#[trigger] values.drop_first()[i]).0
                != (#[trigger] values.drop_first()[j]).0 by {
                assert(values.drop_first()[i] == values[i + 1]);
                assert(values.drop_first()[j] == values[j + 1]);
            }
        }
        lemma_unique_lookup(values.drop_first(), p);
    }
}

/// The stimuli that match every binding of the set: bindings with an
/// undeclared or absent label match nothing; an empty binding set keeps
/// the whole input.
pub fn filter_by_attributes(
    config: &StimuliConfig,
    stimuli: &Vec<Stimulus>,
    bindings: &Vec<(AttributeLabel, StimulusAttribute)>,
) -> (r: Vec<Stimulus>)
    requires
        forall|j: int|
            0 <= j < bindings.deep_view().len() ==> lookup_config(
                config@.values,
                (#[trigger] bindings.deep_view()[j]).0,
            ) is Some,
        forall|j: int, k: int|
            0 <= j < bindings.deep_view().len() && 0 <= k < stimuli.deep_view().len()
                ==> binding_compatible(
                config@,
                #[trigger] stimuli.deep_view()[k],
                #[trigger] bindings.deep_view()[j],
            ),
    ensures
        r.deep_view() == filtered_stimuli(config@, stimuli.deep_view(), bindings.deep_view()),
{
    let ghost pred = |s: StimulusValue| matches_all(config@, s, bindings.deep_view());
    let mut r: Vec<Stimulus> = Vec::new();
    let mut i: usize = 0;
    proof {
        reveal(Seq::filter);
        assert(stimuli.deep_view().take(0).filter(pred) =~= Seq::<StimulusValue>::empty());
        assert(r.deep_view() =~= Seq::<StimulusValue>::empty());
    }
    while i < stimuli.len()
        invariant
            i <= stimuli@.len(),
            pred == (|s: StimulusValue| matches_all(config@, s, bindings.deep_view())),
            forall|j: int|
                0 <= j < bindings.deep_view().len() ==> lookup_config(
                    config@.values,
                    (#[trigger] bindings.deep_view()[j]).0,
                ) is Some,
            forall|j: int, k: int|
                0 <= j < bindings.deep_view().len() && 0 <= k < stimuli.deep_view().len()
                    ==> binding_compatible(
                    config@,
                    #[trigger] stimuli.deep_view()[k],
                    #[trigger] bindings.deep_view()[j],
                ),
            r.deep_view() == stimuli.deep_view().take(i as int).filter(pred),
        decreases stimuli@.len() - i,
    {
        proof {
            assert(stimuli.deep_view()[i as int] == stimuli@[i as int].deep_view());
        }
        let keep = matches_all_exec(config, &stimuli[i], bindings);
        let ghost prevd = r.deep_view();
        if keep {
            r.push(stimuli[i].duplicate());
        }
        i += 1;
        proof {
            reveal(Seq::filter);
            let sd = stimuli.deep_view();
            assert(sd.take(i as int).drop_last() =~= sd.take(i as int - 1));
            assert(sd.take(i as int).last() == sd[i as int - 1]);
            if keep {
                let rd = r.deep_view();
                assert forall|m: int| 0 <= m < rd.len() implies rd[m] == prevd.push(
                    sd[i as int - 1],
                )[m] by {
                    assert(rd[m] == r@[m].deep_view());
                    if m < rd.len() - 1 {
                        assert(prevd[m] == r@[m].deep_view());
                    }
                }
                assert(rd =~= prevd.push(sd[i as int - 1]));
            }
            assert(r.deep_view() == sd.take(i as int).filter(pred));
        }
    }
    proof {
        assert(stimuli.deep_view().take(stimuli@.len() as int) =~= stimuli.deep_view());
    }
    r
}

} // verus!
