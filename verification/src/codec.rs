//! Exact text codecs for the generated documents, in two layers: outcome
//! records in the JSON shape the runtime exchanges, parsed with
//! whitespace tolerance; and a canonical length-prefixed framing for
//! whole configuration documents, whose encoder and decoder are exact
//! inverses. Decoding what was encoded yields the original document.
use crate::decide::{DecideConfig, Decimal, Outcome, Response, StimulusConfig};
use crate::numtext::{dec_text, lemma_decimal_round_trip, parse_dec};
use crate::text::{all_digits, is_digit, lemma_nat_text_val, nat_text, nat_to_chars};
use vstd::prelude::*;

verus! {

pub open spec fn is_ws(c: char) -> bool {
    c == ' ' || c == '\n' || c == '\t' || c == '\r'
}

/// The first position at or after `i` holding a non-whitespace character.
pub open spec fn skip_ws(s: Seq<char>, i: int) -> int
    decreases s.len() - i,
{
    if i < 0 || i >= s.len() {
        i
    } else if is_ws(s[i]) {
        skip_ws(s, i + 1)
    } else {
        i
    }
}

/// The position after `lit` when the text at `i` starts with it.
pub open spec fn lit_at(s: Seq<char>, i: int, lit: Seq<char>) -> Option<int> {
    if 0 <= i && i + lit.len() <= s.len() && s.subrange(i, i + lit.len()) == lit {
        Some(i + lit.len())
    } else {
        None
    }
}

pub open spec fn num_char(c: char) -> bool {
    is_digit(c) || c == '.' || c == '-'
}

/// The first position at or after `i` holding a non-number character.
pub open spec fn num_end(s: Seq<char>, i: int) -> int
    decreases s.len() - i,
{
    if i < 0 || i >= s.len() {
        i
    } else if num_char(s[i]) {
        num_end(s, i + 1)
    } else {
        i
    }
}

/// A fixed-point value read at `i`: the longest run of number characters,
/// parsed exactly.
pub open spec fn parse_dec_at(s: Seq<char>, i: int) -> Option<(int, int)> {
    let e = num_end(s, i);
    match parse_dec(s.subrange(i, e)) {
        None => None,
        Some(v) => Some((v, e)),
    }
}

/// The document text of an outcome: reward and punishment probabilities
/// when present, then the correctness flag.
pub open spec fn outcome_text(o: Outcome) -> Seq<char> {
    seq!['{'] + (match o.p_reward {
        Some(d) => "\"p_reward\":"@ + dec_text(d.raw as int) + seq![','],
        None => Seq::empty(),
    }) + (match o.p_punish {
        Some(d) => "\"p_punish\":"@ + dec_text(d.raw as int) + seq![','],
        None => Seq::empty(),
    }) + "\"correct\":"@ + (if o.correct {
        "true"@
    } else {
        "false"@
    }) + seq!['}']
}

/// An optional `"name":decimal,` field read at `i`.
pub open spec fn parse_opt_dec_field(s: Seq<char>, i: int, name: Seq<char>) -> Option<
    (Option<Decimal>, int),
> {
    match lit_at(s, skip_ws(s, i), name) {
        None => Some((None, i)),
        Some(a) => {
            let b = skip_ws(s, a);
            match lit_at(s, b, seq![':']) {
                None => None,
                Some(c) => {
                    let d = skip_ws(s, c);
                    match parse_dec_at(s, d) {
                        None => None,
                        Some((v, e)) => {
                            let f = skip_ws(s, e);
                            match lit_at(s, f, seq![',']) {
                                None => None,
                                Some(g) => Some((Some(Decimal { raw: v as i32 }), g)),
                            }
                        },
                    }
                },
            }
        },
    }
}

/// An outcome read at `i`, ending just after its closing brace.
pub open spec fn parse_outcome_at(s: Seq<char>, i: int) -> Option<(Outcome, int)> {
    match lit_at(s, skip_ws(s, i), seq!['{']) {
        None => None,
        Some(a) => match parse_opt_dec_field(s, a, "\"p_reward\""@) {
            None => None,
            Some((p_reward, b)) => match parse_opt_dec_field(s, b, "\"p_punish\""@) {
                None => None,
                Some((p_punish, c)) => {
                    let d = skip_ws(s, c);
                    match lit_at(s, d, "\"correct\""@) {
                        None => None,
                        Some(e) => {
                            let f = skip_ws(s, e);
                            match lit_at(s, f, seq![':']) {
                                None => None,
                                Some(g) => {
                                    let h = skip_ws(s, g);
                                    let (correct, k) = if lit_at(s, h, "true"@) is Some {
                                        (true, lit_at(s, h, "true"@).unwrap())
                                    } else if lit_at(s, h, "false"@) is Some {
                                        (false, lit_at(s, h, "false"@).unwrap())
                                    } else {
                                        (false, -1)
                                    };
                                    if k < 0 {
                                        None
                                    } else {
                                        let m = skip_ws(s, k);
                                        match lit_at(s, m, seq!['}']) {
                                            None => None,
                                            Some(end) => Some(
                                                (Outcome { p_reward, p_punish, correct }, end),
                                            ),
                                        }
                                    }
                                },
                            }
                        },
                    }
                },
            },
        },
    }
}

/// A whole outcome document: one outcome with nothing but whitespace
/// around it.
pub open spec fn parse_outcome_full(s: Seq<char>) -> Option<Outcome> {
    match parse_outcome_at(s, 0) {
        None => None,
        Some((o, end)) => if skip_ws(s, end) == s.len() {
            Some(o)
        } else {
            None
        },
    }
}

proof fn lemma_num_end_run(s: Seq<char>, i: int, e: int)
    requires
        0 <= i <= e <= s.len(),
        forall|k: int| i <= k < e ==> num_char(#[trigger] s[k]),
        e == s.len() || !num_char(s[e]),
    ensures
        num_end(s, i) == e,
    decreases e - i,
{
    if i < e {
        lemma_num_end_run(s, i + 1, e);
    }
}

/// A present `"name":decimal,` span parses to the decimal and ends after
/// the comma.
proof fn lemma_opt_field_present(s: Seq<char>, i: int, name: Seq<char>, d: Decimal)
    requires
        0 <= i,
        name.len() >= 1,
        name[0] == '"',
        i + name.len() + 1 + dec_text(d.raw as int).len() + 1 <= s.len(),
        s.subrange(i, i + name.len()) == name,
        s[i + name.len()] == ':',
        s.subrange(
            i + name.len() + 1,
            i + name.len() + 1 + dec_text(d.raw as int).len(),
        ) == dec_text(d.raw as int),
        s[i + name.len() + 1 + dec_text(d.raw as int).len()] == ',',
    ensures
        parse_opt_dec_field(s, i, name) == Some(
            (Some(d), i + name.len() + 1 + dec_text(d.raw as int).len() + 1),
        ),
{
    let dl = dec_text(d.raw as int).len() as int;
    let a = i + name.len() as int;
    assert(s[i] == name[0]);
    assert(!is_ws(s[i]));
    assert(skip_ws(s, i) == i);
    assert(lit_at(s, i, name) == Some(a));
    assert(!is_ws(s[a]));
    assert(skip_ws(s, a) == a);
    assert(s.subrange(a, a + 1) =~= seq![':']);
    assert(lit_at(s, a, seq![':']) == Some(a + 1));
    crate::numtext::lemma_dec_text_chars(d.raw as int);
    let dt = dec_text(d.raw as int);
    assert(s[a + 1] == dt[0]);
    assert(!is_ws(s[a + 1]));
    assert(skip_ws(s, a + 1) == a + 1);
    assert forall|k: int| a + 1 <= k < a + 1 + dl implies num_char(#[trigger] s[k]) by {
        assert(s[k] == dt[k - (a + 1)]);
    }
    assert(!is_digit(',') && ',' != '.' && ',' != '-');
    assert(!num_char(s[a + 1 + dl]));
    lemma_num_end_run(s, a + 1, a + 1 + dl);
    lemma_decimal_round_trip(d.raw as int);
    assert(parse_dec(s.subrange(a + 1, a + 1 + dl)) == Some(d.raw as int));
    assert(parse_dec_at(s, a + 1) == Some((d.raw as int, a + 1 + dl)));
    assert(s[a + 1 + dl] == ',');
    assert(!is_ws(s[a + 1 + dl]));
    assert(skip_ws(s, a + 1 + dl) == a + 1 + dl);
    assert(s.subrange(a + 1 + dl, a + 1 + dl + 1) =~= seq![',']);
    assert(lit_at(s, a + 1 + dl, seq![',']) == Some(a + 1 + dl + 1));
    assert(Decimal { raw: ((d.raw as int) as i32) } == d);
}

/// A span that does not start with `"name"` leaves an absent field.
proof fn lemma_opt_field_absent(s: Seq<char>, i: int, name: Seq<char>, w: int)
    requires
        0 <= i <= s.len(),
        i < s.len() ==> !is_ws(s[i]),
        0 <= w < name.len(),
        i + w >= s.len() || s[i + w] != name[w],
    ensures
        parse_opt_dec_field(s, i, name) == Some((None::<Decimal>, i)),
{
    assert(skip_ws(s, i) == i);
    if i + name.len() <= s.len() {
        assert(s.subrange(i, i + name.len())[w] == s[i + w]);
        assert(s.subrange(i, i + name.len()) != name);
    }
    assert(lit_at(s, i, name) is None);
}

/// Transfers facts about a chunk of a longer text to absolute positions.
proof fn lemma_subrange_transfer(s: Seq<char>, off: int, seg: Seq<char>, a: int, b: int)
    requires
        0 <= off,
        off + seg.len() <= s.len(),
        s.subrange(off, off + seg.len()) == seg,
        0 <= a <= b <= seg.len(),
    ensures
        s.subrange(off + a, off + b) == seg.subrange(a, b),
        forall|k: int| a <= k < b ==> s[off + k] == seg[k],
{
    assert forall|k: int| a <= k < b implies s[off + k] == seg[k] by {
        assert(s.subrange(off, off + seg.len())[k] == s[off + k]);
    }
    assert(s.subrange(off + a, off + b) =~= seg.subrange(a, b));
}

proof fn lemma_seg_dec_field(name11: Seq<char>, name10: Seq<char>, d: Decimal)
    requires
        name11.len() == 11,
        name10 =~= name11.take(10),
        name11[10] == ':',
    ensures
        ({
            let seg = name11 + dec_text(d.raw as int) + seq![','];
            &&& seg.len() == dec_text(d.raw as int).len() + 12
            &&& seg.subrange(0, 10) == name10
            &&& seg[10] == ':'
            &&& seg.subrange(11, 11 + dec_text(d.raw as int).len() as int) == dec_text(d.raw as int)
            &&& seg[11 + dec_text(d.raw as int).len() as int] == ','
        }),
{
    let dt = dec_text(d.raw as int);
    let seg = name11 + dt + seq![','];
    crate::numtext::lemma_dec_text_chars(d.raw as int);
    assert(seg.subrange(0, 10) =~= name10);
    assert(seg.subrange(11, 11 + dt.len() as int) =~= dt);
}

/// The positions of the optional segments inside an outcome's text.
pub open spec fn reward_end(o: Outcome) -> int {
    1 + (match o.p_reward {
        Some(d) => dec_text(d.raw as int).len() + 12int,
        None => 0int,
    })
}

pub open spec fn punish_end(o: Outcome) -> int {
    reward_end(o) + (match o.p_punish {
        Some(d) => dec_text(d.raw as int).len() + 12int,
        None => 0int,
    })
}

#[verifier::rlimit(100)]
#[verifier::spinoff_prover]
proof fn lemma_outcome_fields(o: Outcome)
    ensures
        skip_ws(outcome_text(o), 0) == 0,
        lit_at(outcome_text(o), 0, seq!['{']) == Some(1int),
        parse_opt_dec_field(outcome_text(o), 1, "\"p_reward\""@) == Some(
            (o.p_reward, reward_end(o)),
        ),
        parse_opt_dec_field(outcome_text(o), reward_end(o), "\"p_punish\""@) == Some(
            (o.p_punish, punish_end(o)),
        ),
{
    let s = outcome_text(o);
    let seg_r: Seq<char> = match o.p_reward {
        Some(d) => "\"p_reward\":"@ + dec_text(d.raw as int) + seq![','],
        None => Seq::empty(),
    };
    let seg_p: Seq<char> = match o.p_punish {
        Some(d) => "\"p_punish\":"@ + dec_text(d.raw as int) + seq![','],
        None => Seq::empty(),
    };
    let seg_b: Seq<char> = if o.correct {
        "true"@
    } else {
        "false"@
    };
    let tail = "\"correct\":"@ + seg_b + seq!['}'];
    assert(s =~= seq!['{'] + seg_r + seg_p + tail);
    let p1 = 1int;
    let p2 = p1 + seg_r.len();
    let p3 = p2 + seg_p.len();
    assert(p2 == reward_end(o)) by {
        reveal_strlit("\"p_reward\":");
    }
    assert(p3 == punish_end(o)) by {
        reveal_strlit("\"p_punish\":");
    }
    assert(s.subrange(p1, p2) == seg_r) by {
        assert(s.subrange(p1, p2) =~= seg_r);
    }
    assert(s.subrange(p2, p3) == seg_p) by {
        assert(s.subrange(p2, p3) =~= seg_p);
    }
    assert(s.subrange(p3, s.len() as int) == tail) by {
        assert(s.subrange(p3, s.len() as int) =~= tail);
    }
    assert(s[0] == '{');
    assert(skip_ws(s, 0) == 0);
    assert(lit_at(s, 0, seq!['{']) == Some(p1)) by {
        assert(s.subrange(0, 1) =~= seq!['{']);
    }
    // the reward field
    assert(parse_opt_dec_field(s, p1, "\"p_reward\""@) == Some((o.p_reward, p2))) by {
        reveal_strlit("\"p_reward\":");
        reveal_strlit("\"p_reward\"");
        reveal_strlit("\"p_punish\":");
        reveal_strlit("\"correct\":");
        match o.p_reward {
            Some(d) => {
                let dt = dec_text(d.raw as int);
                assert("\"p_reward\""@ =~= "\"p_reward\":"@.take(10));
                lemma_seg_dec_field("\"p_reward\":"@, "\"p_reward\""@, d);
                lemma_subrange_transfer(s, p1, seg_r, 0, 10);
                lemma_subrange_transfer(s, p1, seg_r, 10, 11);
                lemma_subrange_transfer(s, p1, seg_r, 11, 11 + dt.len() as int);
                lemma_subrange_transfer(s, p1, seg_r, 11 + dt.len() as int, seg_r.len() as int);
                assert(s.subrange(p1, p1 + 10) == "\"p_reward\""@);
                assert(s[p1 + 10] == ':');
                assert(s.subrange(p1 + 11, p1 + 11 + dt.len()) == dt);
                assert(s[p1 + 11 + dt.len()] == ',');
                lemma_opt_field_present(s, p1, "\"p_reward\""@, d);
            },
            None => {
                assert(p2 == p1);
                match o.p_punish {
                    Some(_) => {
                        lemma_subrange_transfer(s, p2, seg_p, 0, 4);
                        assert(s[p1] == '"');
                        assert(s[p1 + 3] == 'p');
                        assert("\"p_reward\""@[3] == 'r');
                        lemma_opt_field_absent(s, p1, "\"p_reward\""@, 3);
                    },
                    None => {
                        assert(p3 == p1);
                        lemma_subrange_transfer(s, p3, tail, 0, 2);
                        assert(s[p1] == '"');
                        assert(s[p1 + 1] == 'c');
                        assert("\"p_reward\""@[1] == 'p');
                        lemma_opt_field_absent(s, p1, "\"p_reward\""@, 1);
                    },
                }
            },
        }
    }
    // the punishment field
    assert(parse_opt_dec_field(s, p2, "\"p_punish\""@) == Some((o.p_punish, p3))) by {
        reveal_strlit("\"p_punish\":");
        reveal_strlit("\"p_punish\"");
        reveal_strlit("\"correct\":");
        match o.p_punish {
            Some(d) => {
                let dt = dec_text(d.raw as int);
                assert("\"p_punish\""@ =~= "\"p_punish\":"@.take(10));
                lemma_seg_dec_field("\"p_punish\":"@, "\"p_punish\""@, d);
                lemma_subrange_transfer(s, p2, seg_p, 0, 10);
                lemma_subrange_transfer(s, p2, seg_p, 10, 11);
                lemma_subrange_transfer(s, p2, seg_p, 11, 11 + dt.len() as int);
                lemma_subrange_transfer(s, p2, seg_p, 11 + dt.len() as int, seg_p.len() as int);
                assert(s.subrange(p2, p2 + 10) == "\"p_punish\""@);
                assert(s[p2 + 10] == ':');
                assert(s.subrange(p2 + 11, p2 + 11 + dt.len()) == dt);
                assert(s[p2 + 11 + dt.len()] == ',');
                lemma_opt_field_present(s, p2, "\"p_punish\""@, d);
            },
            None => {
                assert(p3 == p2);
                lemma_subrange_transfer(s, p3, tail, 0, 2);
                assert(s[p2] == '"');
                assert(s[p2 + 1] == 'c');
                assert("\"p_punish\""@[1] == 'p');
                lemma_opt_field_absent(s, p2, "\"p_punish\""@, 1);
            },
        }
    }
}

#[verifier::rlimit(100)]
#[verifier::spinoff_prover]
proof fn lemma_outcome_tail(o: Outcome)
    ensures
        ({
            let s = outcome_text(o);
            let p3 = punish_end(o);
            let h = p3 + 10;
            &&& skip_ws(s, p3) == p3
            &&& lit_at(s, p3, "\"correct\""@) == Some(p3 + 9)
            &&& skip_ws(s, p3 + 9) == p3 + 9
            &&& lit_at(s, p3 + 9, seq![':']) == Some(h)
            &&& skip_ws(s, h) == h
            &&& (o.correct ==> lit_at(s, h, "true"@) == Some(s.len() - 1))
            &&& (!o.correct ==> lit_at(s, h, "true"@) is None && lit_at(s, h, "false"@) == Some(
                s.len() - 1,
            ))
            &&& s[s.len() - 1] == '}'
            &&& skip_ws(s, s.len() - 1) == s.len() - 1
            &&& lit_at(s, s.len() - 1, seq!['}']) == Some(s.len() as int)
            &&& skip_ws(s, s.len() as int) == s.len()
        }),
{
    let s = outcome_text(o);
    let seg_r: Seq<char> = match o.p_reward {
        Some(d) => "\"p_reward\":"@ + dec_text(d.raw as int) + seq![','],
        None => Seq::empty(),
    };
    let seg_p: Seq<char> = match o.p_punish {
        Some(d) => "\"p_punish\":"@ + dec_text(d.raw as int) + seq![','],
        None => Seq::empty(),
    };
    let seg_b: Seq<char> = if o.correct {
        "true"@
    } else {
        "false"@
    };
    let tail = "\"correct\":"@ + seg_b + seq!['}'];
    assert(s =~= seq!['{'] + seg_r + seg_p + tail);
    let p3: int = 1int + seg_r.len() + seg_p.len();
    assert(p3 == punish_end(o)) by {
        reveal_strlit("\"p_reward\":");
        reveal_strlit("\"p_punish\":");
    }
    assert(s.subrange(p3 as int, s.len() as int) == tail) by {
        assert(s.subrange(p3 as int, s.len() as int) =~= tail);
    }
    let h: int = p3 + 10;
    let k: int = h + seg_b.len();
    assert(skip_ws(s, p3 as int) == p3 && lit_at(s, p3 as int, "\"correct\""@) == Some(p3 + 9)
        && skip_ws(s, p3 + 9) == p3 + 9 && lit_at(s, p3 + 9, seq![':']) == Some(h as int)
        && skip_ws(s, h as int) == h) by {
        reveal_strlit("\"correct\":");
        reveal_strlit("\"correct\"");
        reveal_strlit("true");
        reveal_strlit("false");
        assert("\"correct\""@ =~= "\"correct\":"@.take(9));
        lemma_subrange_transfer(s, p3 as int, tail, 0, 9);
        lemma_subrange_transfer(s, p3 as int, tail, 9, 11);
        assert(s[p3 as int] == '"');
        assert(s.subrange(p3 as int, p3 + 9) =~= "\"correct\""@);
        assert(s[p3 + 9] == ':');
        assert(s.subrange(p3 + 9, p3 + 10) =~= seq![':']);
        assert(s[h as int] == seg_b[0]);
        assert(!is_ws(s[h as int])) by {
            if o.correct {
                assert(seg_b[0] == 't');
            } else {
                assert(seg_b[0] == 'f');
            }
        }
    }
    assert(k + 1 == s.len()) by {
        reveal_strlit("\"correct\":");
        reveal_strlit("true");
        reveal_strlit("false");
    }
    if o.correct {
        assert(lit_at(s, h as int, "true"@) == Some(k as int)) by {
            reveal_strlit("true");
            reveal_strlit("\"correct\":");
            lemma_subrange_transfer(s, p3 as int, tail, 10, 10 + seg_b.len() as int);
            assert(s.subrange(h as int, k as int) =~= "true"@);
        }
    } else {
        assert(lit_at(s, h as int, "true"@) is None && lit_at(s, h as int, "false"@) == Some(
            k as int,
        )) by {
            reveal_strlit("true");
            reveal_strlit("false");
            reveal_strlit("\"correct\":");
            lemma_subrange_transfer(s, p3 as int, tail, 10, 10 + seg_b.len() as int);
            assert(s[h as int] == 'f');
            if lit_at(s, h as int, "true"@) is Some {
                assert(s.subrange(h as int, h + 4)[0] == s[h as int]);
            }
            assert(s.subrange(h as int, k as int) =~= "false"@);
        }
    }
    assert(s[k as int] == '}') by {
        reveal_strlit("\"correct\":");
        reveal_strlit("true");
        reveal_strlit("false");
        lemma_subrange_transfer(s, p3 as int, tail, tail.len() - 1, tail.len() as int);
        assert(tail.last() == '}');
    }
    assert(skip_ws(s, k as int) == k);
    assert(lit_at(s, k as int, seq!['}']) == Some(k + 1)) by {
        assert(s.subrange(k as int, k + 1) =~= seq!['}']);
    }
    assert(skip_ws(s, k + 1) == s.len());
}

/// Decoding the document text of an outcome yields the outcome.
#[verifier::rlimit(100)]
#[verifier::spinoff_prover]
pub proof fn lemma_outcome_round_trip(o: Outcome)
    ensures
        parse_outcome_full(outcome_text(o)) == Some(o),
{
    let s = outcome_text(o);
    lemma_outcome_fields(o);
    lemma_outcome_tail(o);
    let k = s.len() - 1;
    assert(parse_outcome_at(s, 0) == Some((o, s.len() as int)));
}

/// The first position at or after `i` holding a non-digit.
pub open spec fn digits_end(s: Seq<char>, i: int) -> int
    decreases s.len() - i,
{
    if i < 0 || i >= s.len() {
        i
    } else if is_digit(s[i]) {
        digits_end(s, i + 1)
    } else {
        i
    }
}

pub proof fn lemma_digits_end_bounds(s: Seq<char>, i: int)
    requires
        0 <= i <= s.len(),
    ensures
        i <= digits_end(s, i) <= s.len(),
    decreases s.len() - i,
{
    if i < s.len() && is_digit(s[i]) {
        lemma_digits_end_bounds(s, i + 1);
    }
}

proof fn lemma_digits_end_run(s: Seq<char>, i: int, e: int)
    requires
        0 <= i <= e <= s.len(),
        forall|k: int| i <= k < e ==> is_digit(#[trigger] s[k]),
        e == s.len() || !is_digit(s[e]),
    ensures
        digits_end(s, i) == e,
    decreases e - i,
{
    if i < e {
        lemma_digits_end_run(s, i + 1, e);
    }
}

/// A length or count read at `i`: a run of at most twelve digits.
pub open spec fn parse_len_at(s: Seq<char>, i: int) -> Option<(int, int)> {
    let e = digits_end(s, i);
    if e == i || e - i > 12 {
        None
    } else {
        Some((crate::text::digits_val(s.subrange(i, e)), e))
    }
}

/// The framed form of a text: its length, a separator, and the characters
/// themselves, so that no character needs escaping.
pub open spec fn str_frame(c: Seq<char>) -> Seq<char> {
    nat_text(c.len()) + seq![':'] + c
}

/// A framed text read at `i`.
pub open spec fn parse_str_at(s: Seq<char>, i: int) -> Option<(Seq<char>, int)> {
    match parse_len_at(s, i) {
        None => None,
        Some((n, e)) => {
            if e < s.len() && s[e] == ':' && e + 1 + n <= s.len() {
                Some((s.subrange(e + 1, e + 1 + n), e + 1 + n))
            } else {
                None
            }
        },
    }
}

/// The framed form of a fixed-point value: its exact decimal text and a
/// terminator.
pub open spec fn dec_frame(d: Decimal) -> Seq<char> {
    dec_text(d.raw as int) + seq![';']
}

pub open spec fn parse_dec_frame_at(s: Seq<char>, i: int) -> Option<(Decimal, int)> {
    match parse_dec_at(s, i) {
        None => None,
        Some((v, e)) => {
            if e < s.len() && s[e] == ';' {
                Some((Decimal { raw: v as i32 }, e + 1))
            } else {
                None
            }
        },
    }
}

/// An optional fixed-point value: absent, or present with its text.
pub open spec fn opt_dec_frame(v: Option<Decimal>) -> Seq<char> {
    match v {
        None => seq!['N'],
        Some(d) => seq!['S'] + dec_frame(d),
    }
}

pub open spec fn parse_opt_dec_at(s: Seq<char>, i: int) -> Option<(Option<Decimal>, int)> {
    if 0 <= i < s.len() && s[i] == 'N' {
        Some((None, i + 1))
    } else if 0 <= i < s.len() && s[i] == 'S' {
        match parse_dec_frame_at(s, i + 1) {
            None => None,
            Some((d, e)) => Some((Some(d), e)),
        }
    } else {
        None
    }
}

pub open spec fn bool_char(b: bool) -> char {
    if b {
        'T'
    } else {
        'F'
    }
}

/// The framed form of an outcome: both probabilities and the flag.
pub open spec fn outcome_frame(o: Outcome) -> Seq<char> {
    opt_dec_frame(o.p_reward) + opt_dec_frame(o.p_punish) + seq![bool_char(o.correct)]
}

pub open spec fn parse_outcome_frame_at(s: Seq<char>, i: int) -> Option<(Outcome, int)> {
    match parse_opt_dec_at(s, i) {
        None => None,
        Some((p_reward, a)) => match parse_opt_dec_at(s, a) {
            None => None,
            Some((p_punish, b)) => {
                if b < s.len() && (s[b] == 'T' || s[b] == 'F') {
                    Some((Outcome { p_reward, p_punish, correct: s[b] == 'T' }, b + 1))
                } else {
                    None
                }
            },
        },
    }
}

/// One character for each response.
pub open spec fn response_char(r: Response) -> char {
    match r {
        Response::PeckLeft => 'L',
        Response::PeckCenter => 'C',
        Response::PeckRight => 'R',
        Response::Timeout => 'T',
    }
}

pub open spec fn response_of_char(c: char) -> Option<Response> {
    if c == 'L' {
        Some(Response::PeckLeft)
    } else if c == 'C' {
        Some(Response::PeckCenter)
    } else if c == 'R' {
        Some(Response::PeckRight)
    } else if c == 'T' {
        Some(Response::Timeout)
    } else {
        None
    }
}

/// The framed form of one response table entry.
pub open spec fn pair_frame(p: (Response, Outcome)) -> Seq<char> {
    seq![response_char(p.0)] + outcome_frame(p.1)
}

pub open spec fn parse_pair_at(s: Seq<char>, i: int) -> Option<((Response, Outcome), int)> {
    if 0 <= i < s.len() {
        match response_of_char(s[i]) {
            None => None,
            Some(r) => match parse_outcome_frame_at(s, i + 1) {
                None => None,
                Some((o, e)) => Some(((r, o), e)),
            },
        }
    } else {
        None
    }
}

pub open spec fn pairs_frame(rs: Seq<(Response, Outcome)>) -> Seq<char>
    decreases rs.len(),
{
    if rs.len() == 0 {
        Seq::empty()
    } else {
        pair_frame(rs[0]) + pairs_frame(rs.drop_first())
    }
}

pub open spec fn parse_pairs_at(s: Seq<char>, i: int, count: nat) -> Option<
    (Seq<(Response, Outcome)>, int),
>
    decreases count,
{
    if count == 0 {
        Some((Seq::empty(), i))
    } else {
        match parse_pair_at(s, i) {
            None => None,
            Some((p, e)) => match parse_pairs_at(s, e, (count - 1) as nat) {
                None => None,
                Some((rest, end)) => Some((seq![p] + rest, end)),
            },
        }
    }
}

/// The framed form of a response table: its size, then the entries.
pub open spec fn responses_frame(rs: Seq<(Response, Outcome)>) -> Seq<char> {
    nat_text(rs.len()) + seq![':'] + pairs_frame(rs)
}

pub open spec fn parse_responses_at(s: Seq<char>, i: int) -> Option<
    (Seq<(Response, Outcome)>, int),
> {
    match parse_len_at(s, i) {
        None => None,
        Some((n, e)) => {
            if e < s.len() && s[e] == ':' {
                parse_pairs_at(s, e + 1, n as nat)
            } else {
                None
            }
        },
    }
}

/// The framed form of an optional category label.
pub open spec fn cat_frame(c: Option<crate::attribute::AttributeValue>) -> Seq<char> {
    match c {
        None => seq!['N'],
        Some(crate::attribute::AttributeValue::Text(t)) => seq!['X'] + str_frame(t),
        Some(crate::attribute::AttributeValue::Numeric(n)) => seq!['I'] + crate::text::int_text(n)
            + seq![';'],
    }
}

/// A signed integer read at `i`, with a terminator.
pub open spec fn parse_int_frame_at(s: Seq<char>, i: int) -> Option<(int, int)> {
    let neg = 0 <= i < s.len() && s[i] == '-';
    let st = if neg {
        i + 1
    } else {
        i
    };
    match parse_len_at(s, st) {
        None => None,
        Some((v, e)) => {
            let raw = if neg {
                -v
            } else {
                v
            };
            if e < s.len() && s[e] == ';' && i32::MIN <= raw <= i32::MAX {
                Some((raw, e + 1))
            } else {
                None
            }
        },
    }
}

pub open spec fn parse_cat_at(s: Seq<char>, i: int) -> Option<
    (Option<crate::attribute::AttributeValue>, int),
> {
    if 0 <= i < s.len() && s[i] == 'N' {
        Some((None, i + 1))
    } else if 0 <= i < s.len() && s[i] == 'X' {
        match parse_str_at(s, i + 1) {
            None => None,
            Some((t, e)) => Some((Some(crate::attribute::AttributeValue::Text(t)), e)),
        }
    } else if 0 <= i < s.len() && s[i] == 'I' {
        match parse_int_frame_at(s, i + 1) {
            None => None,
            Some((n, e)) => Some((Some(crate::attribute::AttributeValue::Numeric(n)), e)),
        }
    } else {
        None
    }
}

/// The framed form of one per-stimulus entry.
pub open spec fn sc_frame(sc: crate::decide::StimulusConfigValue) -> Seq<char> {
    str_frame(sc.name) + nat_text(sc.frequency as nat) + seq![';'] + responses_frame(sc.responses)
        + cat_frame(sc.category)
}

pub open spec fn parse_sc_at(s: Seq<char>, i: int) -> Option<
    (crate::decide::StimulusConfigValue, int),
> {
    match parse_str_at(s, i) {
        None => None,
        Some((name, a)) => match parse_len_at(s, a) {
            None => None,
            Some((freq, b)) => {
                if !(b < s.len() && s[b] == ';' && freq <= u32::MAX) {
                    None
                } else {
                    match parse_responses_at(s, b + 1) {
                        None => None,
                        Some((responses, c)) => match parse_cat_at(s, c) {
                            None => None,
                            Some((category, e)) => Some(
                                (
                                    crate::decide::StimulusConfigValue {
                                        name,
                                        frequency: freq as u32,
                                        responses,
                                        category,
                                    },
                                    e,
                                ),
                            ),
                        },
                    }
                }
            },
        },
    }
}

pub open spec fn scs_frame(scs: Seq<crate::decide::StimulusConfigValue>) -> Seq<char>
    decreases scs.len(),
{
    if scs.len() == 0 {
        Seq::empty()
    } else {
        sc_frame(scs[0]) + scs_frame(scs.drop_first())
    }
}

pub open spec fn parse_scs_at(s: Seq<char>, i: int, count: nat) -> Option<
    (Seq<crate::decide::StimulusConfigValue>, int),
>
    decreases count,
{
    if count == 0 {
        Some((Seq::empty(), i))
    } else {
        match parse_sc_at(s, i) {
            None => None,
            Some((sc, e)) => match parse_scs_at(s, e, (count - 1) as nat) {
                None => None,
                Some((rest, end)) => Some((seq![sc] + rest, end)),
            },
        }
    }
}

/// The canonical framed text of a whole configuration document: the
/// verbatim parameter blob, the stimulus root, and every entry.
pub open spec fn doc_frame(d: crate::decide::DecideConfigValue) -> Seq<char> {
    str_frame(d.parameters) + str_frame(d.stimulus_root) + nat_text(d.stimuli.len()) + seq![':']
        + scs_frame(d.stimuli)
}

/// A whole framed document, with nothing after it.
pub open spec fn parse_doc(s: Seq<char>) -> Option<crate::decide::DecideConfigValue> {
    match parse_str_at(s, 0) {
        None => None,
        Some((parameters, a)) => match parse_str_at(s, a) {
            None => None,
            Some((stimulus_root, b)) => match parse_len_at(s, b) {
                None => None,
                Some((n, c)) => {
                    if !(c < s.len() && s[c] == ':') {
                        None
                    } else {
                        match parse_scs_at(s, c + 1, n as nat) {
                            None => None,
                            Some((stimuli, end)) => {
                                if end == s.len() {
                                    Some(
                                        crate::decide::DecideConfigValue {
                                            parameters,
                                            stimulus_root,
                                            stimuli,
                                        },
                                    )
                                } else {
                                    None
                                }
                            },
                        }
                    }
                },
            },
        },
    }
}

proof fn lemma_char_at(s: Seq<char>, off: int, seg: Seq<char>, k: int)
    requires
        0 <= off,
        off + seg.len() <= s.len(),
        s.subrange(off, off + seg.len()) == seg,
        0 <= k < seg.len(),
    ensures
        s[off + k] == seg[k],
{
    assert(s.subrange(off, off + seg.len())[k] == s[off + k]);
}

proof fn lemma_nat_text_len(n: nat, k: nat)
    requires
        n < crate::numtext::pow10(k),
        k >= 1,
    ensures
        nat_text(n).len() <= k,
    decreases k,
{
    if n < 10 {
    } else {
        assert(crate::numtext::pow10(k) == 10 * crate::numtext::pow10((k - 1) as nat));
        assert(n / 10 < crate::numtext::pow10((k - 1) as nat)) by (nonlinear_arith)
            requires
                n < 10 * crate::numtext::pow10((k - 1) as nat),
                n >= 10,
        ;
        assert(k >= 2) by {
            if k == 1 {
                assert(crate::numtext::pow10(1nat) == 10);
            }
        }
        lemma_nat_text_len(n / 10, (k - 1) as nat);
    }
}

/// A rendered length followed by a non-digit parses back to itself.
proof fn lemma_len_here(s: Seq<char>, i: int, n: nat)
    requires
        0 <= i,
        n <= 999999999999,
        i + nat_text(n).len() < s.len(),
        s.subrange(i, i + nat_text(n).len()) == nat_text(n),
        !is_digit(s[i + nat_text(n).len()]),
    ensures
        parse_len_at(s, i) == Some((n as int, i + nat_text(n).len())),
{
    lemma_nat_text_val(n);
    let t = nat_text(n);
    let e = i + t.len();
    assert forall|k: int| i <= k < e implies is_digit(#[trigger] s[k]) by {
        assert(s.subrange(i, e)[k - i] == s[k]);
    }
    lemma_digits_end_run(s, i, e);
    assert(t.len() <= 12) by {
        assert(crate::numtext::pow10(12) == 1000000000000) by {
            reveal_with_fuel(crate::numtext::pow10, 13);
        }
        lemma_nat_text_len(n, 12);
    }
}

/// A framed text parses back to its contents.
proof fn lemma_str_here(s: Seq<char>, i: int, c: Seq<char>)
    requires
        0 <= i,
        c.len() <= 999999999999,
        i + str_frame(c).len() < s.len() || (i + str_frame(c).len() == s.len()),
        i + str_frame(c).len() <= s.len(),
        s.subrange(i, i + str_frame(c).len()) == str_frame(c),
    ensures
        parse_str_at(s, i) == Some((c, i + str_frame(c).len())),
{
    let t = nat_text(c.len());
    lemma_nat_text_val(c.len());
    let fr = str_frame(c);
    lemma_subrange_transfer(s, i, fr, 0, t.len() as int);
    lemma_subrange_transfer(s, i, fr, t.len() as int, t.len() as int + 1);
    lemma_subrange_transfer(s, i, fr, t.len() as int + 1, fr.len() as int);
    assert(s.subrange(i, i + t.len()) == fr.subrange(0, t.len() as int));
    assert(fr.subrange(0, t.len() as int) =~= t);
    assert(s[i + t.len()] == fr[t.len() as int]);
    assert(fr[t.len() as int] == ':');
    assert(!is_digit(':'));
    lemma_len_here(s, i, c.len());
    let e = i + t.len();
    assert(s.subrange(e + 1, e + 1 + c.len()) == fr.subrange(t.len() as int + 1, fr.len() as int));
    assert(fr.subrange(t.len() as int + 1, fr.len() as int) =~= c);
}

/// A framed fixed-point value parses back to itself.
proof fn lemma_dec_frame_here(s: Seq<char>, i: int, d: Decimal)
    requires
        0 <= i,
        i + dec_frame(d).len() <= s.len(),
        s.subrange(i, i + dec_frame(d).len()) == dec_frame(d),
    ensures
        parse_dec_frame_at(s, i) == Some((d, i + dec_frame(d).len())),
{
    let dt = dec_text(d.raw as int);
    crate::numtext::lemma_dec_text_chars(d.raw as int);
    let fr = dec_frame(d);
    lemma_subrange_transfer(s, i, fr, 0, dt.len() as int);
    lemma_subrange_transfer(s, i, fr, dt.len() as int, fr.len() as int);
    assert forall|k: int| i <= k < i + dt.len() implies num_char(#[trigger] s[k]) by {
        assert(s[k] == fr[k - i]);
        assert(fr[k - i] == dt[k - i]);
    }
    assert(s[i + dt.len()] == fr[dt.len() as int]);
    assert(fr[dt.len() as int] == ';');
    assert(!is_digit(';') && ';' != '.' && ';' != '-');
    lemma_num_end_run(s, i, i + dt.len());
    assert(s.subrange(i, i + dt.len()) == fr.subrange(0, dt.len() as int));
    assert(fr.subrange(0, dt.len() as int) =~= dt);
    lemma_decimal_round_trip(d.raw as int);
    assert(Decimal { raw: ((d.raw as int) as i32) } == d);
}

/// A framed optional value parses back to itself.
proof fn lemma_opt_dec_here(s: Seq<char>, i: int, v: Option<Decimal>)
    requires
        0 <= i,
        i + opt_dec_frame(v).len() <= s.len(),
        s.subrange(i, i + opt_dec_frame(v).len()) == opt_dec_frame(v),
    ensures
        parse_opt_dec_at(s, i) == Some((v, i + opt_dec_frame(v).len())),
{
    let fr = opt_dec_frame(v);
    lemma_char_at(s, i, fr, 0);
    match v {
        None => {
            assert(s[i] == 'N');
        },
        Some(d) => {
            assert(s[i] == 'S');
            lemma_subrange_transfer(s, i, fr, 1, fr.len() as int);
            assert(s.subrange(i + 1, i + fr.len()) == fr.subrange(1, fr.len() as int));
            assert(fr.subrange(1, fr.len() as int) =~= dec_frame(d));
            lemma_dec_frame_here(s, i + 1, d);
        },
    }
}

/// A framed outcome parses back to itself.
proof fn lemma_outcome_frame_here(s: Seq<char>, i: int, o: Outcome)
    requires
        0 <= i,
        i + outcome_frame(o).len() <= s.len(),
        s.subrange(i, i + outcome_frame(o).len()) == outcome_frame(o),
    ensures
        parse_outcome_frame_at(s, i) == Some((o, i + outcome_frame(o).len())),
{
    let fr = outcome_frame(o);
    let r1 = opt_dec_frame(o.p_reward);
    let r2 = opt_dec_frame(o.p_punish);
    lemma_subrange_transfer(s, i, fr, 0, r1.len() as int);
    lemma_subrange_transfer(s, i, fr, r1.len() as int, r1.len() as int + r2.len());
    lemma_subrange_transfer(s, i, fr, r1.len() as int + r2.len(), fr.len() as int);
    assert(s.subrange(i, i + r1.len()) == fr.subrange(0, r1.len() as int));
    assert(fr.subrange(0, r1.len() as int) =~= r1);
    lemma_opt_dec_here(s, i, o.p_reward);
    let a = i + r1.len();
    assert(s.subrange(a, a + r2.len()) == fr.subrange(r1.len() as int, r1.len() as int + r2.len()));
    assert(fr.subrange(r1.len() as int, r1.len() as int + r2.len()) =~= r2);
    lemma_opt_dec_here(s, a, o.p_punish);
    let b = a + r2.len();
    assert(s[b] == fr[fr.len() - 1]);
    assert(fr[fr.len() - 1] == bool_char(o.correct));
}

/// A framed response table entry parses back to itself.
proof fn lemma_pair_here(s: Seq<char>, i: int, p: (Response, Outcome))
    requires
        0 <= i,
        i + pair_frame(p).len() <= s.len(),
        s.subrange(i, i + pair_frame(p).len()) == pair_frame(p),
    ensures
        parse_pair_at(s, i) == Some((p, i + pair_frame(p).len())),
{
    let fr = pair_frame(p);
    lemma_char_at(s, i, fr, 0);
    assert(s[i] == response_char(p.0));
    assert(response_of_char(response_char(p.0)) == Some(p.0));
    lemma_subrange_transfer(s, i, fr, 1, fr.len() as int);
    assert(s.subrange(i + 1, i + fr.len()) == fr.subrange(1, fr.len() as int));
    assert(fr.subrange(1, fr.len() as int) =~= outcome_frame(p.1));
    lemma_outcome_frame_here(s, i + 1, p.1);
}

/// A framed run of entries parses back to the entries.
proof fn lemma_pairs_here(s: Seq<char>, i: int, rs: Seq<(Response, Outcome)>)
    requires
        0 <= i,
        i + pairs_frame(rs).len() <= s.len(),
        s.subrange(i, i + pairs_frame(rs).len()) == pairs_frame(rs),
    ensures
        parse_pairs_at(s, i, rs.len()) == Some((rs, i + pairs_frame(rs).len())),
    decreases rs.len(),
{
    if rs.len() == 0 {
        assert(rs =~= Seq::<(Response, Outcome)>::empty());
    } else {
        let fr = pairs_frame(rs);
        let p0 = pair_frame(rs[0]);
        lemma_subrange_transfer(s, i, fr, 0, p0.len() as int);
        assert(s.subrange(i, i + p0.len()) == fr.subrange(0, p0.len() as int));
        assert(fr.subrange(0, p0.len() as int) =~= p0);
        lemma_pair_here(s, i, rs[0]);
        let e = i + p0.len();
        lemma_subrange_transfer(s, i, fr, p0.len() as int, fr.len() as int);
        assert(s.subrange(e, i + fr.len()) == fr.subrange(p0.len() as int, fr.len() as int));
        assert(fr.subrange(p0.len() as int, fr.len() as int) =~= pairs_frame(rs.drop_first()));
        lemma_pairs_here(s, e, rs.drop_first());
        assert(seq![rs[0]] + rs.drop_first() =~= rs);
    }
}

/// A framed response table parses back to itself.
proof fn lemma_responses_here(s: Seq<char>, i: int, rs: Seq<(Response, Outcome)>)
    requires
        0 <= i,
        rs.len() <= 999999999999,
        i + responses_frame(rs).len() <= s.len(),
        s.subrange(i, i + responses_frame(rs).len()) == responses_frame(rs),
    ensures
        parse_responses_at(s, i) == Some((rs, i + responses_frame(rs).len())),
{
    let t = nat_text(rs.len());
    lemma_nat_text_val(rs.len());
    let fr = responses_frame(rs);
    lemma_subrange_transfer(s, i, fr, 0, t.len() as int);
    lemma_subrange_transfer(s, i, fr, t.len() as int, t.len() as int + 1);
    lemma_subrange_transfer(s, i, fr, t.len() as int + 1, fr.len() as int);
    assert(s.subrange(i, i + t.len()) == fr.subrange(0, t.len() as int));
    assert(fr.subrange(0, t.len() as int) =~= t);
    assert(s[i + t.len()] == fr[t.len() as int]);
    assert(fr[t.len() as int] == ':');
    assert(!is_digit(':'));
    lemma_len_here(s, i, rs.len());
    let e = i + t.len();
    assert(s.subrange(e + 1, i + fr.len()) == fr.subrange(t.len() as int + 1, fr.len() as int));
    assert(fr.subrange(t.len() as int + 1, fr.len() as int) =~= pairs_frame(rs));
    lemma_pairs_here(s, e + 1, rs);
}

/// A framed category parses back to itself.
proof fn lemma_cat_here(s: Seq<char>, i: int, c: Option<crate::attribute::AttributeValue>)
    requires
        0 <= i,
        i + cat_frame(c).len() <= s.len(),
        s.subrange(i, i + cat_frame(c).len()) == cat_frame(c),
        c matches Some(crate::attribute::AttributeValue::Text(t)) ==> t.len() <= 999999999999,
        c matches Some(crate::attribute::AttributeValue::Numeric(n)) ==> i32::MIN <= n
            <= i32::MAX,
    ensures
        parse_cat_at(s, i) == Some((c, i + cat_frame(c).len())),
{
    let fr = cat_frame(c);
    lemma_char_at(s, i, fr, 0);
    match c {
        None => {
            assert(s[i] == 'N');
        },
        Some(crate::attribute::AttributeValue::Text(t)) => {
            assert(s[i] == 'X');
            lemma_subrange_transfer(s, i, fr, 1, fr.len() as int);
            assert(s.subrange(i + 1, i + fr.len()) == fr.subrange(1, fr.len() as int));
            assert(fr.subrange(1, fr.len() as int) =~= str_frame(t));
            lemma_str_here(s, i + 1, t);
        },
        Some(crate::attribute::AttributeValue::Numeric(n)) => {
            assert(s[i] == 'I');
            let mag: nat = if n < 0 {
                (-n) as nat
            } else {
                n as nat
            };
            let it = crate::text::int_text(n);
            lemma_nat_text_val(mag);
            lemma_subrange_transfer(s, i, fr, 1, fr.len() as int);
            assert(s.subrange(i + 1, i + fr.len()) == fr.subrange(1, fr.len() as int));
            assert(fr.subrange(1, fr.len() as int) =~= it + seq![';']);
            let body = it + seq![';'];
            if n < 0 {
                assert(it =~= seq!['-'] + nat_text(mag));
                assert(s[i + 1] == body[0]);
                assert(body[0] == '-');
                let st = i + 2;
                lemma_subrange_transfer(s, i + 1, body, 1, 1 + nat_text(mag).len() as int);
                assert(s.subrange(st, st + nat_text(mag).len()) == body.subrange(
                    1,
                    1 + nat_text(mag).len() as int,
                ));
                assert(body.subrange(1, 1 + nat_text(mag).len() as int) =~= nat_text(mag));
                lemma_subrange_transfer(s, i + 1, body, 1 + nat_text(mag).len() as int, body.len() as int);
                assert(s[st + nat_text(mag).len()] == body[1 + nat_text(mag).len() as int]);
                assert(body[1 + nat_text(mag).len() as int] == ';');
                assert(!is_digit(';'));
                assert(mag <= 999999999999);
                lemma_len_here(s, st, mag);
            } else {
                assert(it =~= nat_text(mag));
                assert(s[i + 1] == body[0]);
                assert(body[0] == nat_text(mag)[0]);
                assert(is_digit(body[0]));
                assert(s[i + 1] != '-');
                lemma_subrange_transfer(s, i + 1, body, 0, nat_text(mag).len() as int);
                assert(s.subrange(i + 1, i + 1 + nat_text(mag).len()) == body.subrange(
                    0,
                    nat_text(mag).len() as int,
                ));
                assert(body.subrange(0, nat_text(mag).len() as int) =~= nat_text(mag));
                assert(s[i + 1 + nat_text(mag).len()] == body[nat_text(mag).len() as int]);
                assert(body[nat_text(mag).len() as int] == ';');
                assert(!is_digit(';'));
                assert(mag <= 999999999999);
                lemma_len_here(s, i + 1, mag);
            }
        },
    }
}

/// A framed per-stimulus entry parses back to itself.
proof fn lemma_sc_here(s: Seq<char>, i: int, sc: crate::decide::StimulusConfigValue)
    requires
        0 <= i,
        i + sc_frame(sc).len() <= s.len(),
        s.subrange(i, i + sc_frame(sc).len()) == sc_frame(sc),
        sc.name.len() <= 999999999999,
        sc.responses.len() <= 999999999999,
        sc.category matches Some(crate::attribute::AttributeValue::Text(t)) ==> t.len()
            <= 999999999999,
        sc.category matches Some(crate::attribute::AttributeValue::Numeric(n)) ==> i32::MIN <= n
            <= i32::MAX,
    ensures
        parse_sc_at(s, i) == Some((sc, i + sc_frame(sc).len())),
{
    let fr = sc_frame(sc);
    let s1 = str_frame(sc.name);
    let s2 = nat_text(sc.frequency as nat);
    let s3 = responses_frame(sc.responses);
    let s4 = cat_frame(sc.category);
    let o1 = s1.len() as int;
    let o2 = o1 + s2.len() + 1;
    let o3 = o2 + s3.len();
    lemma_subrange_transfer(s, i, fr, 0, o1);
    assert(s.subrange(i, i + o1) == fr.subrange(0, o1));
    assert(fr.subrange(0, o1) =~= s1);
    lemma_str_here(s, i, sc.name);
    let a = i + o1;
    lemma_subrange_transfer(s, i, fr, o1, o1 + s2.len() as int);
    assert(s.subrange(a, a + s2.len()) == fr.subrange(o1, o1 + s2.len() as int));
    assert(fr.subrange(o1, o1 + s2.len() as int) =~= s2);
    lemma_subrange_transfer(s, i, fr, o1 + s2.len() as int, o2);
    assert(s[a + s2.len()] == fr[o1 + s2.len()]);
    assert(fr[o1 + s2.len()] == ';');
    assert(!is_digit(';'));
    assert((sc.frequency as nat) <= 999999999999);
    lemma_len_here(s, a, sc.frequency as nat);
    let b = a + s2.len();
    lemma_subrange_transfer(s, i, fr, o2, o3);
    assert(s.subrange(b + 1, b + 1 + s3.len()) == fr.subrange(o2, o3));
    assert(fr.subrange(o2, o3) =~= s3);
    lemma_responses_here(s, b + 1, sc.responses);
    let c = b + 1 + s3.len();
    lemma_subrange_transfer(s, i, fr, o3, fr.len() as int);
    assert(s.subrange(c, i + fr.len()) == fr.subrange(o3, fr.len() as int));
    assert(fr.subrange(o3, fr.len() as int) =~= s4);
    lemma_cat_here(s, c, sc.category);
    assert((sc.frequency as nat) as int <= u32::MAX);
}

/// A framed run of entries parses back to the entries.
proof fn lemma_scs_here(s: Seq<char>, i: int, scs: Seq<crate::decide::StimulusConfigValue>)
    requires
        0 <= i,
        i + scs_frame(scs).len() <= s.len(),
        s.subrange(i, i + scs_frame(scs).len()) == scs_frame(scs),
        forall|m: int| 0 <= m < scs.len() ==> sc_bounded(#[trigger] scs[m]),
    ensures
        parse_scs_at(s, i, scs.len()) == Some((scs, i + scs_frame(scs).len())),
    decreases scs.len(),
{
    if scs.len() == 0 {
        assert(scs =~= Seq::<crate::decide::StimulusConfigValue>::empty());
    } else {
        let fr = scs_frame(scs);
        let p0 = sc_frame(scs[0]);
        lemma_subrange_transfer(s, i, fr, 0, p0.len() as int);
        assert(s.subrange(i, i + p0.len()) == fr.subrange(0, p0.len() as int));
        assert(fr.subrange(0, p0.len() as int) =~= p0);
        lemma_sc_here(s, i, scs[0]);
        let e = i + p0.len();
        lemma_subrange_transfer(s, i, fr, p0.len() as int, fr.len() as int);
        assert(s.subrange(e, i + fr.len()) == fr.subrange(p0.len() as int, fr.len() as int));
        assert(fr.subrange(p0.len() as int, fr.len() as int) =~= scs_frame(scs.drop_first()));
        assert(forall|m: int|
            0 <= m < scs.drop_first().len() ==> sc_bounded(#[trigger] scs.drop_first()[m]));
        lemma_scs_here(s, e, scs.drop_first());
        assert(seq![scs[0]] + scs.drop_first() =~= scs);
    }
}

/// Whether one entry's parts fit the framing's size fields. Every entry a
/// machine can hold does.
pub open spec fn sc_bounded(sc: crate::decide::StimulusConfigValue) -> bool {
    &&& sc.name.len() <= 999999999999
    &&& sc.responses.len() <= 999999999999
    &&& (sc.category matches Some(crate::attribute::AttributeValue::Text(t)) ==> t.len()
        <= 999999999999)
    &&& (sc.category matches Some(crate::attribute::AttributeValue::Numeric(n)) ==> i32::MIN <= n
        <= i32::MAX)
}

/// Whether a document's parts fit the framing's size fields. Every
/// document a machine can hold does.
pub open spec fn doc_bounded(d: crate::decide::DecideConfigValue) -> bool {
    &&& d.parameters.len() <= 999999999999
    &&& d.stimulus_root.len() <= 999999999999
    &&& d.stimuli.len() <= 999999999999
    &&& forall|m: int| 0 <= m < d.stimuli.len() ==> sc_bounded(#[trigger] d.stimuli[m])
}

/// Encoding a document and decoding the text yields the document back,
/// exactly.
#[verifier::rlimit(100)]
#[verifier::spinoff_prover]
pub proof fn lemma_document_round_trip(d: crate::decide::DecideConfigValue)
    requires
        doc_bounded(d),
    ensures
        parse_doc(doc_frame(d)) == Some(d),
{
    let s = doc_frame(d);
    let s1 = str_frame(d.parameters);
    let s2 = str_frame(d.stimulus_root);
    let t = nat_text(d.stimuli.len());
    let s3 = scs_frame(d.stimuli);
    lemma_nat_text_val(d.stimuli.len());
    assert(s =~= s1 + s2 + t + seq![':'] + s3);
    assert(s.subrange(0, s1.len() as int) =~= s1);
    lemma_str_here(s, 0, d.parameters);
    let a = s1.len() as int;
    assert(s.subrange(a, a + s2.len()) =~= s2);
    lemma_str_here(s, a, d.stimulus_root);
    let b = a + s2.len();
    assert(s.subrange(b, b + t.len()) =~= t);
    assert(s[b + t.len()] == ':');
    assert(!is_digit(':'));
    lemma_len_here(s, b, d.stimuli.len());
    let c = b + t.len();
    assert(s.subrange(c + 1, s.len() as int) =~= s3);
    lemma_scs_here(s, c + 1, d.stimuli);
}

fn skip_ws_exec(s: &Vec<char>, i: usize) -> (r: usize)
    requires
        i <= s@.len(),
    ensures
        r == skip_ws(s@, i as int),
        i <= r <= s@.len(),
    decreases s@.len() - i,
{
    if i >= s.len() {
        i
    } else {
        let c = s[i];
        if c == ' ' || c == '\n' || c == '\t' || c == '\r' {
            skip_ws_exec(s, i + 1)
        } else {
            i
        }
    }
}

fn lit_at_exec(s: &Vec<char>, i: usize, lit: &str) -> (r: Option<usize>)
    requires
        i <= s@.len(),
    ensures
        match r {
            Some(j) => lit_at(s@, i as int, lit@) == Some(j as int) && i <= j <= s@.len(),
            None => lit_at(s@, i as int, lit@) is None,
        },
{
    let lchars = crate::text::chars_of(lit);
    let m = lchars.len();
    let n = s.len();
    if n - i < m {
        return None;
    }
    let mut k: usize = 0;
    while k < m
        invariant
            k <= m,
            m == lit@.len(),
            lchars@ == lit@,
            n == s@.len(),
            i + m <= n,
            forall|w: int| 0 <= w < k ==> s@[i + w] == lit@[w],
        decreases m - k,
    {
        if s[i + k] != lchars[k] {
            proof {
                assert(s@.subrange(i as int, i + lit@.len()) != lit@) by {
                    assert(s@.subrange(i as int, i + lit@.len())[k as int] == s@[i + k]);
                }
            }
            return None;
        }
        k += 1;
    }
    proof {
        assert(s@.subrange(i as int, i + lit@.len()) =~= lit@);
    }
    Some(i + m)
}

fn num_end_exec(s: &Vec<char>, i: usize) -> (r: usize)
    requires
        i <= s@.len(),
    ensures
        r == num_end(s@, i as int),
        i <= r <= s@.len(),
    decreases s@.len() - i,
{
    if i >= s.len() {
        i
    } else {
        let c = s[i];
        if crate::text::is_digit_exec(c) || c == '.' || c == '-' {
            num_end_exec(s, i + 1)
        } else {
            i
        }
    }
}

fn parse_dec_at_exec(s: &Vec<char>, i: usize) -> (r: Option<(Decimal, usize)>)
    requires
        i <= s@.len(),
    ensures
        match r {
            Some((d, j)) => parse_dec_at(s@, i as int) == Some((d.raw as int, j as int)) && i <= j
                <= s@.len(),
            None => parse_dec_at(s@, i as int) is None,
        },
{
    let e = num_end_exec(s, i);
    let mut run: Vec<char> = Vec::new();
    let mut k = i;
    while k < e
        invariant
            i <= k <= e <= s@.len(),
            run@ == s@.subrange(i as int, k as int),
        decreases e - k,
    {
        run.push(s[k]);
        k += 1;
        proof {
            assert(run@ =~= s@.subrange(i as int, k as int));
        }
    }
    proof {
        assert(run@ =~= s@.subrange(i as int, e as int));
    }
    match Decimal::parse_chars(&run) {
        None => None,
        Some(d) => Some((d, e)),
    }
}

fn parse_opt_dec_field_exec(s: &Vec<char>, i: usize, name: &str) -> (r: Option<
    (Option<Decimal>, usize),
>)
    requires
        i <= s@.len(),
    ensures
        match r {
            Some((v, j)) => parse_opt_dec_field(s@, i as int, name@) == Some((v, j as int)) && i
                <= j <= s@.len(),
            None => parse_opt_dec_field(s@, i as int, name@) is None,
        },
{
    proof {
        reveal_strlit(":");
        reveal_strlit(",");
        assert(":"@ =~= seq![':']);
        assert(","@ =~= seq![',']);
    }
    let a0 = skip_ws_exec(s, i);
    match lit_at_exec(s, a0, name) {
        None => Some((None, i)),
        Some(a) => {
            let b = skip_ws_exec(s, a);
            match lit_at_exec(s, b, ":") {
                None => None,
                Some(c) => {
                    let d = skip_ws_exec(s, c);
                    match parse_dec_at_exec(s, d) {
                        None => None,
                        Some((v, e)) => {
                            let f = skip_ws_exec(s, e);
                            match lit_at_exec(s, f, ",") {
                                None => None,
                                Some(g) => {
                                    proof {
                                        reveal_strlit(":");
                                        reveal_strlit(",");
                                        assert(":"@ =~= seq![':']);
                                        assert(","@ =~= seq![',']);
                                    }
                                    Some((Some(v), g))
                                },
                            }
                        },
                    }
                },
            }
        },
    }
}

impl Outcome {
    /// The document text of this outcome.
    pub fn encode(&self) -> (r: Vec<char>)
        ensures
            r@ == outcome_text(*self),
    {
        let mut out: Vec<char> = Vec::new();
        out.push('{');
        match &self.p_reward {
            Some(d) => {
                let mut head = crate::text::chars_of("\"p_reward\":");
                out.append(&mut head);
                let mut num = d.dec_chars();
                out.append(&mut num);
                out.push(',');
            },
            None => {},
        }
        match &self.p_punish {
            Some(d) => {
                let mut head = crate::text::chars_of("\"p_punish\":");
                out.append(&mut head);
                let mut num = d.dec_chars();
                out.append(&mut num);
                out.push(',');
            },
            None => {},
        }
        let mut head = crate::text::chars_of("\"correct\":");
        out.append(&mut head);
        let mut flag = crate::text::chars_of(
            if self.correct {
                "true"
            } else {
                "false"
            },
        );
        out.append(&mut flag);
        out.push('}');
        proof {
            assert(out@ =~= outcome_text(*self));
        }
        out
    }

    /// Decodes the document text of one outcome, with nothing but
    /// whitespace around it.
    pub fn decode(s: &str) -> (r: Option<Outcome>)
        ensures
            match r {
                Some(o) => parse_outcome_full(s@) == Some(o),
                None => parse_outcome_full(s@) is None,
            },
    {
        proof {
            reveal_strlit("{");
            reveal_strlit("}");
            reveal_strlit(":");
            assert("{"@ =~= seq!['{']);
            assert("}"@ =~= seq!['}']);
            assert(":"@ =~= seq![':']);
        }
        let chars = crate::text::chars_of(s);
        let a0 = skip_ws_exec(&chars, 0);
        let a = match lit_at_exec(&chars, a0, "{") {
            None => {
                proof {
                    reveal_strlit("{");
                    assert("{"@ =~= seq!['{']);
                }
                return None;
            },
            Some(a) => a,
        };
        proof {
            reveal_strlit("{");
            assert("{"@ =~= seq!['{']);
        }
        let (p_reward, b) = match parse_opt_dec_field_exec(&chars, a, "\"p_reward\"") {
            None => {
                return None;
            },
            Some(x) => x,
        };
        let (p_punish, c) = match parse_opt_dec_field_exec(&chars, b, "\"p_punish\"") {
            None => {
                return None;
            },
            Some(x) => x,
        };
        let d = skip_ws_exec(&chars, c);
        let e = match lit_at_exec(&chars, d, "\"correct\"") {
            None => {
                return None;
            },
            Some(e) => e,
        };
        let f = skip_ws_exec(&chars, e);
        let g = match lit_at_exec(&chars, f, ":") {
            None => {
                proof {
                    reveal_strlit(":");
                    assert(":"@ =~= seq![':']);
                }
                return None;
            },
            Some(g) => g,
        };
        proof {
            reveal_strlit(":");
            assert(":"@ =~= seq![':']);
        }
        let h = skip_ws_exec(&chars, g);
        let (correct, k) = match lit_at_exec(&chars, h, "true") {
            Some(k) => (true, k),
            None => match lit_at_exec(&chars, h, "false") {
                Some(k) => (false, k),
                None => {
                    return None;
                },
            },
        };
        let m = skip_ws_exec(&chars, k);
        let end = match lit_at_exec(&chars, m, "}") {
            None => {
                proof {
                    reveal_strlit("}");
                    assert("}"@ =~= seq!['}']);
                }
                return None;
            },
            Some(end) => end,
        };
        proof {
            reveal_strlit("}");
            assert("}"@ =~= seq!['}']);
        }
        let fin = skip_ws_exec(&chars, end);
        if fin != chars.len() {
            return None;
        }
        Some(Outcome { p_reward, p_punish, correct })
    }
}

fn push_str_frame(out: &mut Vec<char>, c: &String)
    ensures
        final(out)@ == old(out)@ + str_frame(c@),
{
    let n = c.as_str().unicode_len();
    let mut len_chars = nat_to_chars(n as u64);
    out.append(&mut len_chars);
    out.push(':');
    let mut body = crate::text::chars_of(c.as_str());
    out.append(&mut body);
    proof {
        assert(out@ =~= old(out)@ + str_frame(c@));
    }
}

fn push_opt_dec(out: &mut Vec<char>, v: &Option<Decimal>)
    ensures
        final(out)@ == old(out)@ + opt_dec_frame(*v),
{
    match v {
        None => {
            out.push('N');
            proof {
                assert(out@ =~= old(out)@ + opt_dec_frame(None::<Decimal>));
            }
        },
        Some(d) => {
            out.push('S');
            let mut dc = d.dec_chars();
            out.append(&mut dc);
            out.push(';');
            proof {
                assert(out@ =~= old(out)@ + opt_dec_frame(Some(*d)));
            }
        },
    }
}

fn push_outcome_frame(out: &mut Vec<char>, o: &Outcome)
    ensures
        final(out)@ == old(out)@ + outcome_frame(*o),
{
    push_opt_dec(out, &o.p_reward);
    push_opt_dec(out, &o.p_punish);
    out.push(
        if o.correct {
            'T'
        } else {
            'F'
        },
    );
    proof {
        assert(out@ =~= old(out)@ + outcome_frame(*o));
    }
}

fn push_sc_frame(out: &mut Vec<char>, sc: &StimulusConfig)
    ensures
        final(out)@ == old(out)@ + sc_frame(sc@),
{
    push_str_frame(out, &sc.name);
    let mut freq_chars = nat_to_chars(sc.frequency as u64);
    out.append(&mut freq_chars);
    out.push(';');
    let mut count_chars = nat_to_chars(sc.responses.len() as u64);
    out.append(&mut count_chars);
    out.push(':');
    let ghost before_pairs = out@;
    let mut k: usize = 0;
    proof {
        assert(sc@.responses.skip(0) =~= sc@.responses);
        assert(before_pairs + pairs_frame(sc@.responses) == out@ + pairs_frame(
            sc@.responses.skip(0),
        ));
    }
    while k < sc.responses.len()
        invariant
            k <= sc.responses@.len(),
            before_pairs + pairs_frame(sc@.responses) == out@ + pairs_frame(
                sc@.responses.skip(k as int),
            ),
        decreases sc.responses@.len() - k,
    {
        proof {
            assert(sc@.responses[k as int] == sc.responses@[k as int].deep_view());
        }
        let p = sc.responses[k];
        let ghost prev = out@;
        out.push(
            match p.0 {
                Response::PeckLeft => 'L',
                Response::PeckCenter => 'C',
                Response::PeckRight => 'R',
                Response::Timeout => 'T',
            },
        );
        push_outcome_frame(out, &p.1);
        k += 1;
        proof {
            let rs = sc@.responses;
            assert(out@ =~= prev + pair_frame(rs[k as int - 1]));
            assert(pairs_frame(rs.skip(k as int - 1)) == pair_frame(rs.skip(k as int - 1)[0])
                + pairs_frame(rs.skip(k as int - 1).drop_first()));
            assert(rs.skip(k as int - 1)[0] == rs[k as int - 1]);
            assert(rs.skip(k as int - 1).drop_first() =~= rs.skip(k as int));
            assert(prev + pairs_frame(rs.skip(k as int - 1)) =~= out@ + pairs_frame(
                rs.skip(k as int),
            ));
        }
    }
    proof {
        assert(pairs_frame(sc@.responses.skip(sc.responses@.len() as int)) =~= Seq::<
            char,
        >::empty());
        assert(out@ + pairs_frame(sc@.responses.skip(sc.responses@.len() as int)) =~= out@);
    }
    match &sc.category {
        None => {
            out.push('N');
        },
        Some(attr) => match &attr.0 {
            crate::attribute::AttributeKind::Text(t) => {
                out.push('X');
                push_str_frame_str(out, t);
            },
            crate::attribute::AttributeKind::Numeric(n) => {
                out.push('I');
                let mut ic = crate::text::int_to_chars(*n as i64);
                out.append(&mut ic);
                out.push(';');
            },
        },
    }
    proof {
        assert(out@ =~= old(out)@ + sc_frame(sc@));
    }
}

fn push_str_frame_str(out: &mut Vec<char>, c: &String)
    ensures
        final(out)@ == old(out)@ + str_frame(c@),
{
    push_str_frame(out, c)
}

impl DecideConfig {
    /// The canonical framed text of this document.
    pub fn encode_document(&self) -> (r: Vec<char>)
        ensures
            r@ == doc_frame(self@),
    {
        let mut out: Vec<char> = Vec::new();
        push_str_frame(&mut out, &self.parameters);
        push_str_frame(&mut out, &self.stimulus_root);
        let mut count_chars = nat_to_chars(self.stimuli.len() as u64);
        out.append(&mut count_chars);
        out.push(':');
        let ghost before = out@;
        let mut k: usize = 0;
        proof {
            assert(self@.stimuli.skip(0) =~= self@.stimuli);
            assert(before + scs_frame(self@.stimuli.skip(0)) == before + scs_frame(
                self@.stimuli,
            ));
        }
        while k < self.stimuli.len()
            invariant
                k <= self.stimuli@.len(),
                before + scs_frame(self@.stimuli) == out@ + scs_frame(
                    self@.stimuli.skip(k as int),
                ),
            decreases self.stimuli@.len() - k,
        {
            proof {
                assert(self@.stimuli[k as int] == self.stimuli@[k as int].deep_view());
            }
            let ghost prev = out@;
            push_sc_frame(&mut out, &self.stimuli[k]);
            k += 1;
            proof {
                let scs = self@.stimuli;
                assert(out@ =~= prev + sc_frame(scs[k as int - 1]));
                assert(scs_frame(scs.skip(k as int - 1)) == sc_frame(scs.skip(k as int - 1)[0])
                    + scs_frame(scs.skip(k as int - 1).drop_first()));
                assert(scs.skip(k as int - 1)[0] == scs[k as int - 1]);
                assert(scs.skip(k as int - 1).drop_first() =~= scs.skip(k as int));
                assert(prev + scs_frame(scs.skip(k as int - 1)) =~= out@ + scs_frame(
                    scs.skip(k as int),
                ));
            }
        }
        proof {
            assert(scs_frame(self@.stimuli.skip(self.stimuli@.len() as int)) =~= Seq::<
                char,
            >::empty());
            assert(out@ =~= doc_frame(self@));
        }
        out
    }
}

fn digits_end_exec(s: &Vec<char>, i: usize) -> (r: usize)
    requires
        i <= s@.len(),
    ensures
        r == digits_end(s@, i as int),
        i <= r <= s@.len(),
    decreases s@.len() - i,
{
    if i >= s.len() {
        i
    } else if crate::text::is_digit_exec(s[i]) {
        digits_end_exec(s, i + 1)
    } else {
        i
    }
}

fn parse_len_exec(s: &Vec<char>, i: usize) -> (r: Option<(u64, usize)>)
    requires
        i <= s@.len(),
    ensures
        match r {
            Some((v, e)) => parse_len_at(s@, i as int) == Some((v as int, e as int)) && i < e
                <= s@.len(),
            None => parse_len_at(s@, i as int) is None,
        },
{
    let e = digits_end_exec(s, i);
    if e == i || e - i > 12 {
        return None;
    }
    proof {
        assert forall|k: int| 0 <= k < e - i implies is_digit(
            #[trigger] s@.subrange(i as int, e as int)[k],
        ) by {
            assert(s@.subrange(i as int, e as int)[k] == s@[i + k]);
            assert(digits_end(s@, i as int) == e);
            lemma_digits_run_chars(s@, i as int, i + k);
        }
        crate::numtext::lemma_digits_val_bound(s@.subrange(i as int, e as int));
        assert(crate::numtext::pow10(12) == 1000000000000) by {
            reveal_with_fuel(crate::numtext::pow10, 13);
        }
        crate::numtext::lemma_pow10_le((e - i) as nat, 12);
    }
    let mut v: u64 = 0;
    let mut k = i;
    while k < e
        invariant
            i <= k <= e <= s@.len(),
            digits_end(s@, i as int) == e,
            e - i <= 12,
            v == crate::text::digits_val(s@.subrange(i as int, k as int)),
            v < crate::numtext::pow10((k - i) as nat),
            crate::numtext::pow10((e - i) as nat) <= 1000000000000,
        decreases e - k,
    {
        proof {
            lemma_digits_run_chars(s@, i as int, k as int);
            crate::numtext::lemma_pow10_le((k - i + 1) as nat, (e - i) as nat);
        }
        let d = crate::text::digit_val_exec(s[k]);
        v = v * 10 + d;
        k += 1;
        proof {
            let cur = s@.subrange(i as int, k as int);
            assert(cur.drop_last() =~= s@.subrange(i as int, k as int - 1));
            assert(cur.last() == s@[k - 1]);
            assert(v < crate::numtext::pow10((k - i) as nat)) by (nonlinear_arith)
                requires
                    v == crate::text::digits_val(cur.drop_last()) * 10 + crate::text::digit_val(
                        cur.last(),
                    ),
                    crate::text::digits_val(cur.drop_last()) < crate::numtext::pow10(
                        (k - i - 1) as nat,
                    ),
                    crate::text::digits_val(cur.drop_last()) >= 0,
                    0 <= crate::text::digit_val(cur.last()) <= 9,
                    crate::numtext::pow10((k - i) as nat) == 10 * crate::numtext::pow10(
                        (k - i - 1) as nat,
                    ),
            ;
        }
    }
    Some((v, e))
}

proof fn lemma_digits_run_chars(s: Seq<char>, i: int, k: int)
    requires
        0 <= i <= k,
        k < digits_end(s, i),
    ensures
        is_digit(s[k]),
        k < s.len(),
    decreases k - i,
{
    lemma_digits_end_bounds_gen(s, i);
    if i < k {
        lemma_digits_run_chars(s, i + 1, k);
    }
}

proof fn lemma_digits_end_bounds_gen(s: Seq<char>, i: int)
    ensures
        0 <= i <= s.len() ==> i <= digits_end(s, i) <= s.len(),
        0 <= i < s.len() && is_digit(s[i]) ==> digits_end(s, i) == digits_end(s, i + 1),
        0 <= i < s.len() && !is_digit(s[i]) ==> digits_end(s, i) == i,
{
    if 0 <= i <= s.len() {
        lemma_digits_end_bounds(s, i);
    }
}

fn parse_str_exec(s: &Vec<char>, i: usize) -> (r: Option<(String, usize)>)
    requires
        i <= s@.len(),
    ensures
        match r {
            Some((c, e)) => parse_str_at(s@, i as int) == Some((c@, e as int)) && i < e
                <= s@.len(),
            None => parse_str_at(s@, i as int) is None,
        },
{
    let (n, e) = match parse_len_exec(s, i) {
        None => {
            return None;
        },
        Some(x) => x,
    };
    if e >= s.len() || s[e] != ':' {
        return None;
    }
    let remaining = (s.len() - e - 1) as u64;
    if n > remaining {
        return None;
    }
    let n_usize = n as usize;
    proof {
        assert(n <= s@.len() - e - 1);
        assert(n_usize == n);
    }
    let stop = e + 1 + n_usize;
    let mut out: Vec<char> = Vec::new();
    let mut k = e + 1;
    proof {
        assert(out@ =~= s@.subrange(e as int + 1, k as int));
    }
    while k < stop
        invariant
            e + 1 <= k <= stop,
            stop == e + 1 + n_usize,
            stop <= s@.len(),
            out@ == s@.subrange(e as int + 1, k as int),
        decreases stop - k,
    {
        out.push(s[k]);
        k += 1;
        proof {
            assert(out@ =~= s@.subrange(e as int + 1, k as int));
        }
    }
    Some((crate::text::string_from_chars(&out), stop))
}

fn parse_dec_frame_exec(s: &Vec<char>, i: usize) -> (r: Option<(Decimal, usize)>)
    requires
        i <= s@.len(),
    ensures
        match r {
            Some((d, e)) => parse_dec_frame_at(s@, i as int) == Some((d, e as int)) && i < e
                <= s@.len(),
            None => parse_dec_frame_at(s@, i as int) is None,
        },
{
    let (d, e) = match parse_dec_at_exec(s, i) {
        None => {
            return None;
        },
        Some(x) => x,
    };
    if e >= s.len() || s[e] != ';' {
        return None;
    }
    proof {
        assert(Decimal { raw: ((d.raw as int) as i32) } == d);
        assert(num_end(s@, i as int) >= i);
    }
    Some((d, e + 1))
}

fn parse_opt_dec_exec(s: &Vec<char>, i: usize) -> (r: Option<(Option<Decimal>, usize)>)
    requires
        i <= s@.len(),
    ensures
        match r {
            Some((v, e)) => parse_opt_dec_at(s@, i as int) == Some((v, e as int)) && i < e
                <= s@.len(),
            None => parse_opt_dec_at(s@, i as int) is None,
        },
{
    if i >= s.len() {
        return None;
    }
    let c = s[i];
    if c == 'N' {
        Some((None, i + 1))
    } else if c == 'S' {
        match parse_dec_frame_exec(s, i + 1) {
            None => None,
            Some((d, e)) => Some((Some(d), e)),
        }
    } else {
        None
    }
}

fn parse_outcome_frame_exec(s: &Vec<char>, i: usize) -> (r: Option<(Outcome, usize)>)
    requires
        i <= s@.len(),
    ensures
        match r {
            Some((o, e)) => parse_outcome_frame_at(s@, i as int) == Some((o, e as int)) && i < e
                <= s@.len(),
            None => parse_outcome_frame_at(s@, i as int) is None,
        },
{
    let (p_reward, a) = match parse_opt_dec_exec(s, i) {
        None => {
            return None;
        },
        Some(x) => x,
    };
    let (p_punish, b) = match parse_opt_dec_exec(s, a) {
        None => {
            return None;
        },
        Some(x) => x,
    };
    if b >= s.len() {
        return None;
    }
    let c = s[b];
    if c == 'T' || c == 'F' {
        Some((Outcome { p_reward, p_punish, correct: c == 'T' }, b + 1))
    } else {
        None
    }
}

fn parse_pairs_exec(s: &Vec<char>, i: usize, count: u64) -> (r: Option<
    (Vec<(Response, Outcome)>, usize),
>)
    requires
        i <= s@.len(),
    ensures
        match r {
            Some((v, e)) => parse_pairs_at(s@, i as int, count as nat) == Some(
                (v.deep_view(), e as int),
            ) && i <= e <= s@.len(),
            None => parse_pairs_at(s@, i as int, count as nat) is None,
        },
    decreases count,
{
    if count == 0 {
        let out: Vec<(Response, Outcome)> = Vec::new();
        proof {
            assert(out.deep_view() =~= Seq::<(Response, Outcome)>::empty());
        }
        return Some((out, i));
    }
    if i >= s.len() {
        return None;
    }
    let c = s[i];
    let resp = if c == 'L' {
        Response::PeckLeft
    } else if c == 'C' {
        Response::PeckCenter
    } else if c == 'R' {
        Response::PeckRight
    } else if c == 'T' {
        Response::Timeout
    } else {
        return None;
    };
    let (o, e) = match parse_outcome_frame_exec(s, i + 1) {
        None => {
            return None;
        },
        Some(x) => x,
    };
    let (rest, end) = match parse_pairs_exec(s, e, count - 1) {
        None => {
            return None;
        },
        Some(x) => x,
    };
    let mut out: Vec<(Response, Outcome)> = Vec::new();
    out.push((resp, o));
    let mut tail = rest;
    out.append(&mut tail);
    proof {
        let ghost target = seq![(resp, o)] + parse_pairs_at(
            s@,
            e as int,
            (count - 1) as nat,
        ).unwrap().0;
        assert forall|m: int| 0 <= m < out@.len() implies out.deep_view()[m] == target[m] by {
            assert(out.deep_view()[m] == out@[m].deep_view());
        }
        assert(out.deep_view() =~= target);
    }
    Some((out, end))
}

fn parse_cat_exec(s: &Vec<char>, i: usize) -> (r: Option<
    (Option<crate::attribute::StimulusAttribute>, usize),
>)
    requires
        i <= s@.len(),
    ensures
        match r {
            Some((v, e)) => parse_cat_at(s@, i as int) == Some(
                (
                    match v {
                        None => None,
                        Some(a) => Some(a@),
                    },
                    e as int,
                ),
            ) && i < e <= s@.len(),
            None => parse_cat_at(s@, i as int) is None,
        },
{
    if i >= s.len() {
        return None;
    }
    let c = s[i];
    if c == 'N' {
        Some((None, i + 1))
    } else if c == 'X' {
        match parse_str_exec(s, i + 1) {
            None => None,
            Some((t, e)) => Some(
                (Some(crate::attribute::StimulusAttribute::from(t.as_str())), e),
            ),
        }
    } else if c == 'I' {
        let neg = i + 1 < s.len() && s[i + 1] == '-';
        let st = if neg {
            i + 2
        } else {
            i + 1
        };
        if st > s.len() {
            return None;
        }
        let (v, e) = match parse_len_exec(s, st) {
            None => {
                return None;
            },
            Some(x) => x,
        };
        if e >= s.len() || s[e] != ';' {
            return None;
        }
        if neg {
            if v > 2147483648 {
                return None;
            }
            let raw: i32 = (-(v as i64)) as i32;
            Some((Some(crate::attribute::StimulusAttribute::numeric(raw)), e + 1))
        } else {
            if v > 2147483647 {
                return None;
            }
            Some((Some(crate::attribute::StimulusAttribute::numeric(v as i32)), e + 1))
        }
    } else {
        None
    }
}

fn parse_sc_exec(s: &Vec<char>, i: usize) -> (r: Option<(StimulusConfig, usize)>)
    requires
        i <= s@.len(),
    ensures
        match r {
            Some((sc, e)) => parse_sc_at(s@, i as int) == Some((sc@, e as int)) && i < e
                <= s@.len(),
            None => parse_sc_at(s@, i as int) is None,
        },
{
    let (name, a) = match parse_str_exec(s, i) {
        None => {
            return None;
        },
        Some(x) => x,
    };
    let (freq, b) = match parse_len_exec(s, a) {
        None => {
            return None;
        },
        Some(x) => x,
    };
    if b >= s.len() || s[b] != ';' || freq > 4294967295 {
        return None;
    }
    let (responses, c) = match parse_pairs_step(s, b + 1) {
        None => {
            return None;
        },
        Some(x) => x,
    };
    let (category, e) = match parse_cat_exec(s, c) {
        None => {
            return None;
        },
        Some(x) => x,
    };
    Some((StimulusConfig { name, frequency: freq as u32, responses, category }, e))
}

fn parse_pairs_step(s: &Vec<char>, i: usize) -> (r: Option<(Vec<(Response, Outcome)>, usize)>)
    requires
        i <= s@.len(),
    ensures
        match r {
            Some((v, e)) => parse_responses_at(s@, i as int) == Some((v.deep_view(), e as int))
                && i < e <= s@.len() || (parse_responses_at(s@, i as int) == Some(
                (v.deep_view(), e as int),
            ) && i <= e <= s@.len()),
            None => parse_responses_at(s@, i as int) is None,
        },
{
    let (n, e) = match parse_len_exec(s, i) {
        None => {
            return None;
        },
        Some(x) => x,
    };
    if e >= s.len() || s[e] != ':' {
        return None;
    }
    parse_pairs_exec(s, e + 1, n)
}

/// Decodes the canonical framed text of a whole document.
pub fn decode_document(s: &str) -> (r: Option<DecideConfig>)
    ensures
        match r {
            Some(doc) => parse_doc(s@) == Some(doc@),
            None => parse_doc(s@) is None,
        },
{
    let chars = crate::text::chars_of(s);
    let (parameters, a) = match parse_str_exec(&chars, 0) {
        None => {
            return None;
        },
        Some(x) => x,
    };
    let (stimulus_root, b) = match parse_str_exec(&chars, a) {
        None => {
            return None;
        },
        Some(x) => x,
    };
    let (n, c) = match parse_len_exec(&chars, b) {
        None => {
            return None;
        },
        Some(x) => x,
    };
    if c >= chars.len() || chars[c] != ':' {
        return None;
    }
    let (stimuli, end) = match parse_scs_exec(&chars, c + 1, n) {
        None => {
            return None;
        },
        Some(x) => x,
    };
    if end != chars.len() {
        return None;
    }
    let doc = DecideConfig { parameters, stimulus_root, stimuli };
    proof {
        assert(doc@.stimuli =~= parse_scs_at(chars@, c as int + 1, n as nat).unwrap().0);
    }
    Some(doc)
}

fn parse_scs_exec(s: &Vec<char>, i: usize, count: u64) -> (r: Option<(Vec<StimulusConfig>, usize)>)
    requires
        i <= s@.len(),
    ensures
        match r {
            Some((v, e)) => parse_scs_at(s@, i as int, count as nat) == Some(
                (v.deep_view(), e as int),
            ) && i <= e <= s@.len(),
            None => parse_scs_at(s@, i as int, count as nat) is None,
        },
    decreases count,
{
    if count == 0 {
        let out: Vec<StimulusConfig> = Vec::new();
        proof {
            assert(out.deep_view() =~= Seq::<crate::decide::StimulusConfigValue>::empty());
        }
        return Some((out, i));
    }
    let (sc, e) = match parse_sc_exec(s, i) {
        None => {
            return None;
        },
        Some(x) => x,
    };
    let (rest, end) = match parse_scs_exec(s, e, count - 1) {
        None => {
            return None;
        },
        Some(x) => x,
    };
    let ghost sc_view = sc@;
    let mut out: Vec<StimulusConfig> = Vec::new();
    out.push(sc);
    let mut tail = rest;
    out.append(&mut tail);
    proof {
        let ghost target = seq![sc_view] + parse_scs_at(
            s@,
            e as int,
            (count - 1) as nat,
        ).unwrap().0;
        assert forall|m: int| 0 <= m < out@.len() implies out.deep_view()[m] == target[m] by {
            assert(out.deep_view()[m] == out@[m].deep_view());
        }
        assert(out.deep_view() =~= target);
    }
    Some((out, end))
}

} // verus!
