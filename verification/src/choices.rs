//! The correct-choice assignment: a balanced random mapping from each
//! decisive-attribute value to one response, and its logical inverse.
use crate::attribute::{AttributeValue, StimulusAttribute};
use crate::decide::Response;
use crate::stimulus::{lookup_attr, Stimulus};
use crate::Error;
use rand::seq::SliceRandom;
use vstd::prelude::*;

verus! {

broadcast use {vstd::seq_lib::group_to_multiset_ensures, vstd::multiset::group_multiset_axioms};

/// The responses of the entries, in entry order.
pub open spec fn responses_of(s: Seq<(AttributeValue, Response)>) -> Seq<Response> {
    s.map_values(|p: (AttributeValue, Response)| p.1)
}

/// How often response `r` is assigned.
pub open spec fn count_of(s: Seq<Response>, r: Response) -> nat {
    s.to_multiset().count(r)
}

/// The response assigned to `key`: the first entry with that key wins.
pub open spec fn lookup_choice(s: Seq<(AttributeValue, Response)>, key: AttributeValue) -> Option<
    Response,
>
    decreases s.len(),
{
    if s.len() == 0 {
        None
    } else if s[0].0 == key {
        Some(s[0].1)
    } else {
        lookup_choice(s.drop_first(), key)
    }
}

/// The first response in `s` other than `a`, if any.
pub open spec fn other_response(s: Seq<Response>, a: Response) -> Option<Response>
    decreases s.len(),
{
    if s.len() == 0 {
        None
    } else if s[0] != a {
        Some(s[0])
    } else {
        other_response(s.drop_first(), a)
    }
}

/// Whether the responses take exactly two distinct values.
pub open spec fn two_valued(s: Seq<Response>) -> bool {
    &&& s.len() > 0
    &&& other_response(s, s[0]) is Some
    &&& forall|i: int|
        0 <= i < s.len() ==> (#[trigger] s[i]) == s[0] || s[i] == other_response(s, s[0]).unwrap()
}

/// The other of the two responses: `b` for `a`, `a` for anything else.
pub open spec fn flip(r: Response, a: Response, b: Response) -> Response {
    if r == a {
        b
    } else {
        a
    }
}

/// Every response replaced by the other of the mapping's two values.
pub open spec fn invert_choices(s: Seq<(AttributeValue, Response)>) -> Seq<
    (AttributeValue, Response),
> {
    let a = responses_of(s)[0];
    let b = other_response(responses_of(s), a).unwrap();
    Seq::new(s.len(), |i: int| (s[i].0, flip(s[i].1, a, b)))
}

/// The sum of the assignment counts of the given responses.
pub open spec fn sum_counts(choices: Seq<Response>, s: Seq<Response>) -> nat
    decreases choices.len(),
{
    if choices.len() == 0 {
        0
    } else {
        count_of(s, choices[0]) + sum_counts(choices.drop_first(), s)
    }
}

proof fn lemma_sum_counts_zero(choices: Seq<Response>, s: Seq<Response>)
    requires
        s.len() == 0,
    ensures
        sum_counts(choices, s) == 0,
    decreases choices.len(),
{
    if choices.len() > 0 {
        assert(!s.contains(choices[0]));
        lemma_sum_counts_zero(choices.drop_first(), s);
    }
}

proof fn lemma_sum_counts_push(choices: Seq<Response>, s: Seq<Response>, x: Response)
    requires
        choices.no_duplicates(),
        choices.contains(x),
    ensures
        sum_counts(choices, s.push(x)) == sum_counts(choices, s) + 1,
    decreases choices.len(),
{
    if choices[0] == x {
        assert(!choices.drop_first().contains(x)) by {
            if choices.drop_first().contains(x) {
                let j = choose|j: int|
                    0 <= j < choices.drop_first().len() && choices.drop_first()[j] == x;
                assert(choices[j + 1] == x);
            }
        }
        lemma_sum_counts_same(choices.drop_first(), s, x);
    } else {
        assert(choices.drop_first().contains(x)) by {
            let j = choose|j: int| 0 <= j < choices.len() && choices[j] == x;
            assert(choices.drop_first()[j - 1] == x);
        }
        assert(choices.drop_first().no_duplicates());
        lemma_sum_counts_push(choices.drop_first(), s, x);
    }
}

proof fn lemma_sum_counts_same(choices: Seq<Response>, s: Seq<Response>, x: Response)
    requires
        !choices.contains(x),
    ensures
        sum_counts(choices, s.push(x)) == sum_counts(choices, s),
    decreases choices.len(),
{
    if choices.len() > 0 {
        assert(choices[0] != x);
        assert(!choices.drop_first().contains(x)) by {
            if choices.drop_first().contains(x) {
                let j = choose|j: int|
                    0 <= j < choices.drop_first().len() && choices.drop_first()[j] == x;
                assert(choices[j + 1] == x);
            }
        }
        lemma_sum_counts_same(choices.drop_first(), s, x);
    }
}

/// Every response of `s` is one of `choices`, and `choices` repeats none,
/// so the counts of the choices add up to the length of `s`.
pub proof fn lemma_sum_counts_total(choices: Seq<Response>, s: Seq<Response>)
    requires
        choices.no_duplicates(),
        forall|i: int| 0 <= i < s.len() ==> choices.contains(#[trigger] s[i]),
    ensures
        sum_counts(choices, s) == s.len(),
    decreases s.len(),
{
    if s.len() == 0 {
        lemma_sum_counts_zero(choices, s);
    } else {
        let s0 = s.drop_last();
        assert(forall|i: int| 0 <= i < s0.len() ==> choices.contains(#[trigger] s0[i]));
        lemma_sum_counts_total(choices, s0);
        assert(s =~= s0.push(s.last()));
        lemma_sum_counts_push(choices, s0, s.last());
    }
}

/// A mapping from each decisive-attribute value to exactly one response.
#[derive(Debug, Clone, PartialEq)]
pub struct CorrectChoices {
    pub entries: Vec<(StimulusAttribute, Response)>,
}

impl View for CorrectChoices {
    type V = Seq<(AttributeValue, Response)>;

    open spec fn view(&self) -> Seq<(AttributeValue, Response)> {
        self.entries.deep_view()
    }
}

impl CorrectChoices {
    /// Whether each decisive-attribute value has at most one entry.
    pub open spec fn wf(&self) -> bool {
        forall|i: int, j: int|
            0 <= i < j < self@.len() ==> (#[trigger] self@[i]).0 != (#[trigger] self@[j]).0
    }

    /// Whether the mapping assigns exactly two distinct responses.
    pub open spec fn is_two_valued(&self) -> bool {
        two_valued(responses_of(self@))
    }

    pub fn from_entries(entries: Vec<(StimulusAttribute, Response)>) -> (r: Self)
        ensures
            r@ == entries.deep_view(),
    {
        CorrectChoices { entries }
    }

    pub fn entries(&self) -> (r: &Vec<(StimulusAttribute, Response)>)
        ensures
            r.deep_view() == self@,
    {
        &self.entries
    }

    /// The response assigned to the stimulus's decisive value, or an error
    /// naming that value when it has no entry.
    pub fn get(&self, key: &Stimulus) -> (r: Result<&Response, Error>)
        requires
            lookup_attr(key@.attributes, key@.decisive) is Some,
        ensures
            match r {
                Ok(resp) => lookup_choice(
                    self@,
                    lookup_attr(key@.attributes, key@.decisive).unwrap(),
                ) == Some(*resp),
                Err(e) => lookup_choice(
                    self@,
                    lookup_attr(key@.attributes, key@.decisive).unwrap(),
                ) is None && e@ == crate::ErrorValue::StimMissingFromCorrectChoices(
                    lookup_attr(key@.attributes, key@.decisive).unwrap(),
                ),
            },
    {
        let value = key.decisive_attribute();
        let ghost kv = value@;
        let mut i: usize = 0;
        proof {
            assert(self@.skip(0) =~= self@);
        }
        loop
            invariant
                i <= self.entries@.len(),
                kv == value@,
                kv == lookup_attr(key@.attributes, key@.decisive).unwrap(),
                lookup_choice(self@, kv) == lookup_choice(self@.skip(i as int), kv),
            decreases self.entries@.len() - i,
        {
            if i >= self.entries.len() {
                proof {
                    assert(self@.skip(i as int).len() == 0);
                }
                return Err(Error::StimMissingFromCorrectChoices(value.duplicate()));
            }
            proof {
                assert(self@.skip(i as int)[0] == self@[i as int]);
                assert(self@[i as int] == self.entries@[i as int].deep_view());
                assert(self@.skip(i as int).drop_first() =~= self@.skip(i as int + 1));
            }
            let hit = self.entries[i].0.same_as(value);
            if hit {
                proof {
                    assert(self@.skip(i as int)[0].0 == kv);
                    assert(lookup_choice(self@.skip(i as int), kv) == Some(self@[i as int].1));
                    assert(self@[i as int].1 == self.entries@[i as int].1);
                }
                return Ok(&self.entries[i].1);
            }
            proof {
                assert(self@.skip(i as int)[0].0 != kv);
                assert(lookup_choice(self@.skip(i as int), kv) == lookup_choice(
                    self@.skip(i as int + 1),
                    kv,
                ));
            }
            i += 1;
        }
    }

    /// The two distinct responses the mapping assigns: the first entry's
    /// response, then the first other one.
    pub fn choices(&self) -> (r: [Response; 2])
        requires
            self.is_two_valued(),
        ensures
            r[0] == responses_of(self@)[0],
            Some(r[1]) == other_response(responses_of(self@), responses_of(self@)[0]),
            r[0] != r[1],
    {
        let ghost resp = responses_of(self@);
        let first = self.entries[0].1;
        proof {
            assert(resp[0] == self.entries@[0].deep_view().1);
            assert(resp.skip(0) =~= resp);
        }
        let mut i: usize = 0;
        loop
            invariant
                i <= self.entries@.len(),
                resp == responses_of(self@),
                first == resp[0],
                self.is_two_valued(),
                other_response(resp, first) == other_response(resp.skip(i as int), first),
            decreases self.entries@.len() - i,
        {
            let n = self.entries.len();
            proof {
                if i == n {
                    assert(resp.skip(i as int).len() == 0);
                    assert(false);
                }
            }
            proof {
                assert(resp.skip(i as int)[0] == resp[i as int]);
                assert(resp[i as int] == self.entries@[i as int].deep_view().1);
                assert(resp.skip(i as int).drop_first() =~= resp.skip(i as int + 1));
            }
            let candidate = self.entries[i].1;
            if candidate != first {
                return [first, candidate];
            }
            i += 1;
        }
    }

    /// The mapping with each entry's response replaced by the other of the
    /// two assigned responses. Inversion is defined only for a mapping
    /// whose responses take exactly two distinct values.
    pub fn inverted(&self) -> (r: Self)
        requires
            self.is_two_valued(),
        ensures
            r@ == invert_choices(self@),
            r@.len() == self@.len(),
            forall|i: int| 0 <= i < self@.len() ==> (#[trigger] r@[i]).0 == self@[i].0,
    {
        let pair = self.choices();
        let ghost target = invert_choices(self@);
        proof {
            assert(target.len() == self@.len());
        }
        let mut entries: Vec<(StimulusAttribute, Response)> = Vec::new();
        let mut i: usize = 0;
        while i < self.entries.len()
            invariant
                i <= self.entries@.len(),
                target == invert_choices(self@),
                target.len() == self@.len(),
                pair[0] == responses_of(self@)[0],
                Some(pair[1]) == other_response(responses_of(self@), responses_of(self@)[0]),
                entries@.len() == i,
                entries.deep_view() == target.take(i as int),
            decreases self.entries@.len() - i,
        {
            let inverse = if self.entries[i].1 == pair[0] {
                pair[1]
            } else {
                pair[0]
            };
            let p = (self.entries[i].0.duplicate(), inverse);
            entries.push(p);
            i += 1;
            proof {
                let ed = entries.deep_view();
                assert forall|m: int| 0 <= m < i implies ed[m] == target.take(i as int)[m] by {
                    assert(ed[m] == entries@[m].deep_view());
                    assert(self@[m] == self.entries@[m].deep_view());
                    assert(responses_of(self@)[m] == self@[m].1);
                    if m < i - 1 {
                        assert(entries@[m].deep_view() == target.take(i as int - 1)[m]);
                    }
                }
                assert(ed =~= target.take(i as int));
            }
        }
        proof {
            assert(target.take(self.entries@.len() as int) =~= target);
        }
        CorrectChoices { entries }
    }

    /// How often the mapping assigns `resp`.
    pub fn count_response(&self, resp: Response) -> (r: usize)
        ensures
            r == count_of(responses_of(self@), resp),
    {
        let mut r: usize = 0;
        let mut i: usize = 0;
        proof {
            assert(responses_of(self@.take(0)).to_multiset() =~= Seq::<
                Response,
            >::empty().to_multiset());
        }
        while i < self.entries.len()
            invariant
                i <= self.entries@.len(),
                r <= i,
                r == count_of(responses_of(self@.take(i as int)), resp),
            decreases self.entries@.len() - i,
        {
            proof {
                assert(self@[i as int] == self.entries@[i as int].deep_view());
            }
            if self.entries[i].1 == resp {
                r += 1;
            }
            i += 1;
            proof {
                let prev = responses_of(self@.take(i as int - 1));
                let cur = responses_of(self@.take(i as int));
                assert(cur =~= prev.push(self@[i as int - 1].1));
            }
        }
        proof {
            assert(self@.take(self.entries@.len() as int) =~= self@);
        }
        r
    }
}

/// Relies on rand's `SliceRandom::shuffle`, a Fisher-Yates shuffle: it
/// permutes the elements in place, adding and removing none.
#[verifier::external_body]
fn shuffle_responses(v: &mut Vec<Response>)
    ensures
        final(v)@.len() == old(v)@.len(),
        final(v)@.to_multiset() == old(v)@.to_multiset(),
{
    v.shuffle(&mut rand::thread_rng());
}

impl CorrectChoices {
    /// A balanced random assignment: each decisive-attribute value is
    /// mapped to one of `choices`, every choice is used either
    /// `n / |choices|` or `n / |choices| + 1` times, and the counts add up
    /// to `n`. Fails exactly when `choices` is empty.
    pub fn random_with_choices(choices: Vec<Response>, all_values: &Vec<StimulusAttribute>) -> (r:
        Result<Self, Error>)
        requires
            choices@.no_duplicates(),
            forall|i: int, j: int|
                0 <= i < j < all_values.deep_view().len() ==> all_values.deep_view()[i]
                    != all_values.deep_view()[j],
        ensures
            match r {
                Ok(c) => {
                    &&& choices@.len() > 0
                    &&& c.wf()
                    &&& c@.len() == all_values.deep_view().len()
                    &&& forall|i: int|
                        0 <= i < c@.len() ==> (#[trigger] c@[i]).0 == all_values.deep_view()[i]
                    &&& forall|i: int|
                        0 <= i < c@.len() ==> choices@.contains((#[trigger] c@[i]).1)
                    &&& forall|resp: Response|
                        choices@.contains(resp) ==> all_values.deep_view().len() / choices@.len()
                            <= #[trigger] count_of(responses_of(c@), resp)
                            <= all_values.deep_view().len() / choices@.len() + 1
                    &&& forall|r1: Response, r2: Response|
                        choices@.contains(r1) && choices@.contains(r2) ==> #[trigger] count_of(
                            responses_of(c@),
                            r1,
                        ) <= #[trigger] count_of(responses_of(c@), r2) + 1
                    &&& sum_counts(choices@, responses_of(c@))
                        == all_values.deep_view().len()
                },
                Err(e) => e == Error::EmptyChoices && choices@.len() == 0,
            },
    {
        let k = choices.len();
        if k == 0 {
            return Err(Error::EmptyChoices);
        }
        let mut shuffled = choices;
        shuffle_responses(&mut shuffled);
        proof {
            choices@.lemma_multiset_has_no_duplicates();
            shuffled@.lemma_multiset_has_no_duplicates_conv();
            assert forall|x: Response| shuffled@.contains(x) <==> choices@.contains(x) by {
                assert(shuffled@.to_multiset().count(x) == choices@.to_multiset().count(x));
            }
        }
        let n = all_values.len();
        let base = n / k;
        let rem = n % k;
        proof {
            vstd::arithmetic::div_mod::lemma_fundamental_div_mod(n as int, k as int);
        }
        let mut matched: Vec<Response> = Vec::new();
        let mut i: usize = 0;
        while i < k
            invariant
                i <= k,
                k == shuffled@.len(),
                k == choices@.len(),
                k > 0,
                base == n / k,
                rem == n % k,
                rem < k,
                n == k * base + rem,
                shuffled@.no_duplicates(),
                forall|x: Response| shuffled@.contains(x) <==> choices@.contains(x),
                matched@.len() == base * i + (if i <= rem {
                    i as int
                } else {
                    rem as int
                }),
                forall|idx: int|
                    0 <= idx < i ==> #[trigger] count_of(matched@, shuffled@[idx]) == base + (
                    if idx < rem {
                        1int
                    } else {
                        0int
                    }),
                forall|x: Response|
                    !shuffled@.take(i as int).contains(x) ==> #[trigger] count_of(matched@, x)
                        == 0,
                forall|m: int| 0 <= m < matched@.len() ==> shuffled@.contains(#[trigger] matched@[m]),
            decreases k - i,
        {
            let mut reps = base;
            if i < rem {
                proof {
                    assert(k >= 2);
                    assert(base + 1 <= n) by (nonlinear_arith)
                        requires
                            k >= 2,
                            rem >= 1,
                            rem < k,
                            n == k * base + rem,
                            base >= 0,
                    ;
                }
                reps = reps + 1;
            }
            let value = shuffled[i];
            proof {
                assert(!shuffled@.take(i as int).contains(value)) by {
                    if shuffled@.take(i as int).contains(value) {
                        let m = choose|m: int|
                            0 <= m < i && shuffled@.take(i as int)[m] == value;
                        assert(shuffled@[m] == shuffled@[i as int]);
                    }
                }
                assert(count_of(matched@, value) == 0);
            }
            let ghost len0 = matched@.len();
            let mut j: usize = 0;
            while j < reps
                invariant
                    j <= reps,
                    i < k,
                    k == shuffled@.len(),
                    value == shuffled@[i as int],
                    shuffled@.no_duplicates(),
                    matched@.len() == len0 + j,
                    count_of(matched@, value) == j,
                    forall|idx: int|
                        0 <= idx < i ==> #[trigger] count_of(matched@, shuffled@[idx]) == base + (
                        if idx < rem {
                            1int
                        } else {
                            0int
                        }),
                    forall|x: Response|
                        !shuffled@.take(i as int).contains(x) && x != value
                            ==> #[trigger] count_of(matched@, x) == 0,
                    forall|m: int|
                        0 <= m < matched@.len() ==> shuffled@.contains(#[trigger] matched@[m]),
                decreases reps - j,
            {
                let ghost prev = matched@;
                matched.push(value);
                j += 1;
                proof {
                    assert(matched@ =~= prev.push(value));
                    assert(matched@.to_multiset() =~= prev.to_multiset().insert(value));
                    assert forall|x: Response| x != value implies #[trigger] count_of(matched@, x)
                        == count_of(prev, x) by {
                        assert(prev.to_multiset().insert(value).count(x) == prev.to_multiset().count(
                            x,
                        ));
                    }
                    assert(count_of(matched@, value) == count_of(prev, value) + 1) by {
                        assert(prev.to_multiset().insert(value).count(value)
                            == prev.to_multiset().count(value) + 1);
                    }
                    assert forall|idx: int|
                        0 <= idx < i implies #[trigger] count_of(matched@, shuffled@[idx]) == base
                        + (if idx < rem {
                        1int
                    } else {
                        0int
                    }) by {
                        assert(shuffled@[idx] != value);
                    }
                    assert forall|m: int| 0 <= m < matched@.len() implies shuffled@.contains(
                        #[trigger] matched@[m],
                    ) by {
                        if m < matched@.len() - 1 {
                            assert(matched@[m] == prev[m]);
                        } else {
                            assert(matched@[m] == value);
                        }
                    }
                }
            }
            i += 1;
            proof {
                assert(count_of(matched@, shuffled@[i as int - 1]) == reps);
                assert(base * i == base * (i - 1) + base) by (nonlinear_arith);
                assert(k * base == base * k) by (nonlinear_arith);
                assert(matched@.len() == base * i + (if i <= rem {
                    i as int
                } else {
                    rem as int
                }));
                let t = shuffled@.take(i as int);
                assert forall|x: Response| !t.contains(x) implies #[trigger] count_of(matched@, x)
                    == 0 by {
                    assert(t[i - 1] == shuffled@[i - 1]);
                    assert(x != value);
                    assert forall|m: int| 0 <= m < i - 1 implies (#[trigger] shuffled@.take(
                        i as int - 1,
                    )[m]) != x by {
                        assert(t[m] == shuffled@[m]);
                    }
                    assert(!shuffled@.take(i as int - 1).contains(x));
                }
            }
        }
        proof {
            assert(shuffled@.take(k as int) =~= shuffled@);
            assert(base * k + rem == n) by (nonlinear_arith)
                requires
                    n == k * base + rem,
            ;
            assert(matched@.len() == n);
        }
        let ghost pre_shuffle = matched@;
        shuffle_responses(&mut matched);
        proof {
            assert(matched@.to_multiset() == pre_shuffle.to_multiset());
            assert(forall|x: Response|
                #[trigger] count_of(matched@, x) == count_of(pre_shuffle, x));
            assert forall|m: int| 0 <= m < matched@.len() implies shuffled@.contains(
                #[trigger] matched@[m],
            ) by {
                assert(matched@.to_multiset().count(matched@[m]) > 0);
                assert(pre_shuffle.contains(matched@[m]));
                let mm = choose|mm: int|
                    0 <= mm < pre_shuffle.len() && pre_shuffle[mm] == matched@[m];
            }
        }
        let ghost counts_src = matched@;
        let ghost target = Seq::new(
            n as nat,
            |m: int| (all_values.deep_view()[m], counts_src[m]),
        );
        let mut entries: Vec<(StimulusAttribute, Response)> = Vec::new();
        let mut idx: usize = 0;
        proof {
            assert(entries.deep_view() =~= target.take(0));
        }
        while idx < n
            invariant
                idx <= n,
                n == all_values@.len(),
                matched@.len() == n,
                matched@ == counts_src,
                target == Seq::new(
                    n as nat,
                    |m: int| (all_values.deep_view()[m], counts_src[m]),
                ),
                entries@.len() == idx,
                entries.deep_view() == target.take(idx as int),
            decreases n - idx,
        {
            let p = (all_values[idx].duplicate(), matched[idx]);
            let ghost prevd = entries.deep_view();
            entries.push(p);
            idx += 1;
            proof {
                let ed = entries.deep_view();
                assert forall|m: int| 0 <= m < idx implies ed[m] == target.take(idx as int)[m] by {
                    assert(ed[m] == entries@[m].deep_view());
                    assert(all_values.deep_view()[m] == all_values@[m].deep_view());
                    if m < idx - 1 {
                        assert(prevd[m] == entries@[m].deep_view());
                        assert(prevd[m] == target.take(idx as int - 1)[m]);
                    }
                }
                assert(ed =~= target.take(idx as int));
            }
        }
        proof {
            assert(target.take(n as int) =~= target);
        }
        let result = CorrectChoices { entries };
        proof {
            let cv = result@;
            let dv = all_values.deep_view();
            assert(cv == target);
            assert(cv.len() == n);
            assert forall|m: int| 0 <= m < n implies cv[m] == (dv[m], counts_src[m]) by {}
            assert(responses_of(cv) =~= matched@) by {
                assert forall|m: int| 0 <= m < n implies responses_of(cv)[m] == matched@[m] by {
                    assert(cv[m] == (dv[m], matched@[m]));
                }
            }
            assert forall|m: int| 0 <= m < cv.len() implies (#[trigger] cv[m]).0 == dv[m] by {}
            assert forall|m: int| 0 <= m < cv.len() implies choices@.contains(
                (#[trigger] cv[m]).1,
            ) by {
                assert(cv[m].1 == matched@[m]);
            }
            assert forall|resp: Response| choices@.contains(resp) implies base
                <= #[trigger] count_of(responses_of(cv), resp) <= base + 1 by {
                assert(shuffled@.contains(resp));
                let pos = choose|pos: int| 0 <= pos < shuffled@.len() && shuffled@[pos] == resp;
                assert(count_of(counts_src, shuffled@[pos]) == base + (if pos < rem {
                    1int
                } else {
                    0int
                }));
            }
            assert forall|i2: int| 0 <= i2 < cv.len() implies choices@.contains(
                (#[trigger] cv[i2]).1,
            ) by {}
            assert(forall|r1: Response, r2: Response|
                choices@.contains(r1) && choices@.contains(r2) ==> #[trigger] count_of(
                    responses_of(cv),
                    r1,
                ) <= #[trigger] count_of(responses_of(cv), r2) + 1);
            assert(forall|i2: int|
                0 <= i2 < cv.len() ==> dv[i2] == (#[trigger] cv[i2]).0);
            lemma_sum_counts_total(choices@, responses_of(cv));
            assert(dv.len() == n);
        }
        Ok(result)
    }
}

impl CorrectChoices {
    /// A balanced random assignment over the experiment's decisive domain
    /// and its two declared choices.
    pub fn random(experiment: &crate::experiment::Experiment) -> (r: Result<Self, Error>)
        requires
            crate::stimulus::lookup_config(
                experiment@.stimuli.values,
                experiment@.stimuli.decisive,
            ) is Some,
            experiment@.decide.choices.0 != experiment@.decide.choices.1,
            ({
                let domain = crate::stimulus::lookup_config(
                    experiment@.stimuli.values,
                    experiment@.stimuli.decisive,
                ).unwrap().values;
                forall|i: int, j: int| 0 <= i < j < domain.len() ==> domain[i] != domain[j]
            }),
        ensures
            match r {
                Ok(c) => {
                    let domain = crate::stimulus::lookup_config(
                        experiment@.stimuli.values,
                        experiment@.stimuli.decisive,
                    ).unwrap().values;
                    let pair = seq![experiment@.decide.choices.0, experiment@.decide.choices.1];
                    &&& c.wf()
                    &&& c@.len() == domain.len()
                    &&& forall|i: int| 0 <= i < c@.len() ==> (#[trigger] c@[i]).0 == domain[i]
                    &&& forall|i: int| 0 <= i < c@.len() ==> pair.contains((#[trigger] c@[i]).1)
                    &&& forall|resp: Response|
                        pair.contains(resp) ==> domain.len() / 2 <= #[trigger] count_of(
                            responses_of(c@),
                            resp,
                        ) <= domain.len() / 2 + 1
                    &&& sum_counts(pair, responses_of(c@)) == domain.len()
                },
                Err(_) => false,
            },
    {
        let decisive = experiment.decisive_attribute().duplicate();
        let all_values = match experiment.list_attribute_values(&decisive) {
            Some(vs) => vs,
            None => {
                proof {
                    assert(false);
                }
                Vec::new()
            },
        };
        let choices = experiment.choices();
        proof {
            let pair = seq![experiment@.decide.choices.0, experiment@.decide.choices.1];
            assert(choices@ == pair);
            assert(choices@.no_duplicates());
        }
        let result = match Self::random_with_choices(choices, &all_values) {
            Ok(c) => c,
            Err(_) => {
                proof {
                    assert(false);
                }
                return Err(Error::EmptyChoices);
            },
        };
        Ok(result)
    }
}

proof fn lemma_other_response_ne(s: Seq<Response>, a: Response)
    ensures
        other_response(s, a) matches Some(b) ==> b != a && s.contains(b),
    decreases s.len(),
{
    if s.len() > 0 && s[0] == a {
        lemma_other_response_ne(s.drop_first(), a);
        if other_response(s.drop_first(), a) is Some {
            let b = other_response(s.drop_first(), a).unwrap();
            let j = choose|j: int| 0 <= j < s.drop_first().len() && s.drop_first()[j] == b;
            assert(s[j + 1] == b);
        }
    }
}

proof fn lemma_other_flip(s: Seq<Response>, a: Response, b: Response)
    requires
        a != b,
        other_response(s, a) == Some(b),
        forall|i: int| 0 <= i < s.len() ==> (#[trigger] s[i]) == a || s[i] == b,
    ensures
        other_response(s.map_values(|r: Response| flip(r, a, b)), b) == Some(a),
    decreases s.len(),
{
    let t = s.map_values(|r: Response| flip(r, a, b));
    if s[0] != a {
        assert(s[0] == b);
        assert(t[0] == a);
    } else {
        assert(t[0] == b);
        assert(t.drop_first() =~= s.drop_first().map_values(|r: Response| flip(r, a, b)));
        assert(forall|i: int|
            0 <= i < s.drop_first().len() ==> (#[trigger] s.drop_first()[i]) == a
                || s.drop_first()[i] == b);
        lemma_other_flip(s.drop_first(), a, b);
    }
}

/// Inversion is an involution: inverting a two-valued mapping twice gives
/// back the original mapping.
pub proof fn lemma_invert_involution(s: Seq<(AttributeValue, Response)>)
    requires
        two_valued(responses_of(s)),
    ensures
        two_valued(responses_of(invert_choices(s))),
        invert_choices(invert_choices(s)) == s,
{
    let resp = responses_of(s);
    let a = resp[0];
    let b = other_response(resp, a).unwrap();
    lemma_other_response_ne(resp, a);
    let t = invert_choices(s);
    let tresp = responses_of(t);
    assert(tresp =~= resp.map_values(|r: Response| flip(r, a, b))) by {
        assert forall|i: int| 0 <= i < t.len() implies tresp[i] == flip(resp[i], a, b) by {
            assert(t[i] == (s[i].0, flip(s[i].1, a, b)));
            assert(resp[i] == s[i].1);
        }
    }
    lemma_other_flip(resp, a, b);
    assert(tresp[0] == flip(resp[0], a, b));
    assert(tresp[0] == b);
    assert(other_response(tresp, b) == Some(a));
    assert(two_valued(tresp)) by {
        assert forall|i: int| 0 <= i < tresp.len() implies (#[trigger] tresp[i]) == tresp[0]
            || tresp[i] == other_response(tresp, tresp[0]).unwrap() by {
            assert(tresp[i] == flip(resp[i], a, b));
        }
    }
    let u = invert_choices(t);
    assert(u =~= s) by {
        assert forall|i: int| 0 <= i < u.len() implies u[i] == s[i] by {
            assert(u[i] == (t[i].0, flip(t[i].1, b, a)));
            assert(t[i] == (s[i].0, flip(s[i].1, a, b)));
            assert(resp[i] == s[i].1);
            assert(resp[i] == a || resp[i] == b);
        }
    }
}

} // verus!
