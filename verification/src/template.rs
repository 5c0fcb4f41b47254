//! Curly-brace name templates: extracting `{label}` placeholders and
//! substituting bound values for them.
use crate::text::string_from_chars;
use vstd::prelude::*;

verus! {

/// Index of the first `}` at or after position `i`, if any.
pub open spec fn find_close(t: Seq<char>, i: int) -> Option<int>
    decreases t.len() - i,
{
    if i < 0 || i >= t.len() {
        None
    } else if t[i] == '}' {
        Some(i)
    } else {
        find_close(t, i + 1)
    }
}

pub proof fn lemma_find_close_bounds(t: Seq<char>, i: int)
    ensures
        find_close(t, i) matches Some(j) ==> i <= j < t.len(),
    decreases t.len() - i,
{
    if 0 <= i < t.len() && t[i] != '}' {
        lemma_find_close_bounds(t, i + 1);
    }
}

/// The placeholder names of the template from position `i` on, in order;
/// `None` if some `{` has no closing `}`.
pub open spec fn args_from(t: Seq<char>, i: int) -> Option<Seq<Seq<char>>>
    decreases t.len() - i,
    via args_from_decreases
{
    if i < 0 || i >= t.len() {
        Some(Seq::empty())
    } else if t[i] == '{' {
        match find_close(t, i + 1) {
            None => None,
            Some(j) => match args_from(t, j + 1) {
                None => None,
                Some(rest) => Some(seq![t.subrange(i + 1, j)] + rest),
            },
        }
    } else {
        args_from(t, i + 1)
    }
}

#[via_fn]
proof fn args_from_decreases(t: Seq<char>, i: int) {
    lemma_find_close_bounds(t, i + 1);
}

/// The placeholder names of a whole template.
pub open spec fn template_args(t: Seq<char>) -> Option<Seq<Seq<char>>> {
    args_from(t, 0)
}

/// The value bound to `name`: the first binding with that name wins.
pub open spec fn lookup_binding(b: Seq<(Seq<char>, Seq<char>)>, name: Seq<char>) -> Option<
    Seq<char>,
>
    decreases b.len(),
{
    if b.len() == 0 {
        None
    } else if b[0].0 == name {
        Some(b[0].1)
    } else {
        lookup_binding(b.drop_first(), name)
    }
}

/// The template from position `i` on with every `{name}` replaced by the
/// value bound to `name`; `None` if the template is malformed or some
/// placeholder has no binding.
pub open spec fn format_from(t: Seq<char>, i: int, b: Seq<(Seq<char>, Seq<char>)>) -> Option<
    Seq<char>,
>
    decreases t.len() - i,
    via format_from_decreases
{
    if i < 0 || i >= t.len() {
        Some(Seq::empty())
    } else if t[i] == '{' {
        match find_close(t, i + 1) {
            None => None,
            Some(j) => match lookup_binding(b, t.subrange(i + 1, j)) {
                None => None,
                Some(val) => match format_from(t, j + 1, b) {
                    None => None,
                    Some(rest) => Some(val + rest),
                },
            },
        }
    } else {
        match format_from(t, i + 1, b) {
            None => None,
            Some(rest) => Some(seq![t[i]] + rest),
        }
    }
}

#[via_fn]
proof fn format_from_decreases(t: Seq<char>, i: int, b: Seq<(Seq<char>, Seq<char>)>) {
    lemma_find_close_bounds(t, i + 1);
}

/// The whole template with every placeholder substituted.
pub open spec fn format_template(t: Seq<char>, b: Seq<(Seq<char>, Seq<char>)>) -> Option<
    Seq<char>,
> {
    format_from(t, 0, b)
}

fn find_close_exec(t: &Vec<char>, i: usize) -> (r: Option<usize>)
    ensures
        match r {
            Some(j) => find_close(t@, i as int) == Some(j as int) && i <= j < t@.len(),
            None => find_close(t@, i as int) is None,
        },
    decreases t@.len() - i,
{
    if i >= t.len() {
        None
    } else if t[i] == '}' {
        Some(i)
    } else {
        find_close_exec(t, i + 1)
    }
}

fn args_go(t: &Vec<char>, i: usize, out: &mut Vec<String>) -> (ok: bool)
    ensures
        ok <==> args_from(t@, i as int) is Some,
        ok ==> final(out).deep_view() == old(out).deep_view() + args_from(t@, i as int).unwrap(),
    decreases t@.len() - i,
{
    if i >= t.len() {
        proof {
            assert(out.deep_view() =~= old(out).deep_view() + args_from(
                t@,
                i as int,
            ).unwrap());
        }
        true
    } else if t[i] == '{' {
        match find_close_exec(t, i + 1) {
            None => false,
            Some(j) => {
                let mut name: Vec<char> = Vec::new();
                let mut k: usize = i + 1;
                while k < j
                    invariant
                        i + 1 <= k <= j < t@.len(),
                        name@ == t@.subrange(i + 1, k as int),
                    decreases j - k,
                {
                    name.push(t[k]);
                    k += 1;
                    proof {
                        assert(name@ =~= t@.subrange(i + 1, k as int));
                    }
                }
                out.push(string_from_chars(&name));
                let ghost mid = out.deep_view();
                let ok = args_go(t, j + 1, out);
                proof {
                    if ok {
                        assert(mid =~= old(out).deep_view() + seq![t@.subrange(
                            i + 1,
                            j as int,
                        )]);
                        assert(out.deep_view() =~= old(out).deep_view() + args_from(
                            t@,
                            i as int,
                        ).unwrap());
                    }
                }
                ok
            },
        }
    } else {
        args_go(t, i + 1, out)
    }
}

/// The placeholder names of the template, left to right, or `None` if some
/// `{` has no closing `}`.
pub fn template_args_exec(t: &Vec<char>) -> (r: Option<Vec<String>>)
    ensures
        match r {
            Some(names) => template_args(t@) == Some(names.deep_view()),
            None => template_args(t@) is None,
        },
{
    let mut out: Vec<String> = Vec::new();
    if args_go(t, 0, &mut out) {
        Some(out)
    } else {
        None
    }
}

fn lookup_binding_exec<'a>(b: &'a Vec<(String, String)>, name: &Vec<char>) -> (r: Option<
    &'a String,
>)
    ensures
        match r {
            Some(val) => lookup_binding(b.deep_view(), name@) == Some(val@),
            None => lookup_binding(b.deep_view(), name@) is None,
        },
{
    let mut idx: usize = 0;
    proof {
        assert(b.deep_view().skip(0) =~= b.deep_view());
    }
    loop
        invariant
            idx <= b@.len(),
            lookup_binding(b.deep_view(), name@) == lookup_binding(
                b.deep_view().skip(idx as int),
                name@,
            ),
        decreases b@.len() - idx,
    {
        if idx >= b.len() {
            return None;
        }
        let mut name_string: Vec<char> = Vec::new();
        let mut k: usize = 0;
        while k < name.len()
            invariant
                k <= name@.len(),
                name_string@ == name@.subrange(0, k as int),
            decreases name@.len() - k,
        {
            name_string.push(name[k]);
            k += 1;
            proof {
                assert(name_string@ =~= name@.subrange(0, k as int));
            }
        }
        proof {
            assert(name_string@ =~= name@);
        }
        let candidate = string_from_chars(&name_string);
        proof {
            assert(b.deep_view().skip(idx as int)[0] == (b@[idx as int].0@, b@[idx as int].1@));
        }
        if b[idx].0 == candidate {
            proof {
                assert(lookup_binding(b.deep_view().skip(idx as int), name@) == Some(
                    b@[idx as int].1@,
                ));
            }
            return Some(&b[idx].1);
        }
        proof {
            assert(b.deep_view().skip(idx as int).drop_first() =~= b.deep_view().skip(
                idx as int + 1,
            ));
        }
        idx += 1;
    }
}

fn format_go(t: &Vec<char>, i: usize, b: &Vec<(String, String)>, out: &mut Vec<char>) -> (ok:
    bool)
    ensures
        ok <==> format_from(t@, i as int, b.deep_view()) is Some,
        ok ==> final(out)@ == old(out)@ + format_from(t@, i as int, b.deep_view()).unwrap(),
    decreases t@.len() - i,
{
    if i >= t.len() {
        proof {
            assert(out@ =~= old(out)@ + format_from(t@, i as int, b.deep_view()).unwrap());
        }
        true
    } else if t[i] == '{' {
        match find_close_exec(t, i + 1) {
            None => false,
            Some(j) => {
                let mut name: Vec<char> = Vec::new();
                let mut k: usize = i + 1;
                while k < j
                    invariant
                        i + 1 <= k <= j < t@.len(),
                        name@ == t@.subrange(i + 1, k as int),
                    decreases j - k,
                {
                    name.push(t[k]);
                    k += 1;
                    proof {
                        assert(name@ =~= t@.subrange(i + 1, k as int));
                    }
                }
                proof {
                    assert(name@ =~= t@.subrange(i + 1, j as int));
                }
                match lookup_binding_exec(b, &name) {
                    None => false,
                    Some(val) => {
                        let mut val_chars = crate::text::chars_of(val.as_str());
                        out.append(&mut val_chars);
                        let ghost mid = out@;
                        let ok = format_go(t, j + 1, b, out);
                        proof {
                            if ok {
                                assert(out@ =~= old(out)@ + format_from(
                                    t@,
                                    i as int,
                                    b.deep_view(),
                                ).unwrap());
                            }
                        }
                        ok
                    },
                }
            },
        }
    } else {
        out.push(t[i]);
        let ghost mid = out@;
        let ok = format_go(t, i + 1, b, out);
        proof {
            if ok {
                assert(mid =~= old(out)@ + seq![t@[i as int]]);
                assert(out@ =~= old(out)@ + format_from(t@, i as int, b.deep_view()).unwrap());
            }
        }
        ok
    }
}

/// The template with every `{name}` replaced by the value bound to `name`,
/// or `None` if the template is malformed or a placeholder is unresolved.
pub fn format_template_exec(t: &Vec<char>, b: &Vec<(String, String)>) -> (r: Option<Vec<char>>)
    ensures
        match r {
            Some(s) => format_template(t@, b.deep_view()) == Some(s@),
            None => format_template(t@, b.deep_view()) is None,
        },
{
    let mut out: Vec<char> = Vec::new();
    if format_go(t, 0, b, &mut out) {
        Some(out)
    } else {
        None
    }
}

} // verus!
