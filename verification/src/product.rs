//! Cartesian product of ordered value domains: the combinations are
//! enumerated in row-major order, the last domain varying fastest.
use crate::attribute::StimulusAttribute;
use vstd::prelude::*;

verus! {

/// One combination `c` extended by each value of `l` in turn.
pub open spec fn product_row<A>(c: Seq<A>, l: Seq<A>) -> Seq<Seq<A>>
    decreases l.len(),
{
    if l.len() == 0 {
        Seq::empty()
    } else {
        product_row(c, l.drop_last()).push(c.push(l.last()))
    }
}

/// Every combination of `acc` extended by each value of `l`.
pub open spec fn product_extend<A>(acc: Seq<Seq<A>>, l: Seq<A>) -> Seq<Seq<A>>
    decreases acc.len(),
{
    if acc.len() == 0 {
        Seq::empty()
    } else {
        product_extend(acc.drop_last(), l) + product_row(acc.last(), l)
    }
}

/// The cartesian product of the domains, row-major: the product of no
/// domains is the single empty combination.
pub open spec fn product<A>(lists: Seq<Seq<A>>) -> Seq<Seq<A>>
    decreases lists.len(),
{
    if lists.len() == 0 {
        seq![Seq::empty()]
    } else {
        product_extend(product(lists.drop_last()), lists.last())
    }
}

pub proof fn lemma_product_row_shape<A>(c: Seq<A>, l: Seq<A>)
    ensures
        product_row(c, l).len() == l.len(),
        forall|i: int|
            0 <= i < l.len() ==> #[trigger] product_row(c, l)[i] == c.push(l[i]),
    decreases l.len(),
{
    if l.len() > 0 {
        lemma_product_row_shape(c, l.drop_last());
    }
}

pub proof fn lemma_product_extend_shape<A>(acc: Seq<Seq<A>>, l: Seq<A>)
    ensures
        product_extend(acc, l).len() == acc.len() * l.len(),
        forall|i: int, j: int|
            0 <= i < acc.len() && 0 <= j < l.len() ==> product_extend(acc, l)[i * l.len() + j]
                == #[trigger] acc[i].push(l[j]),
    decreases acc.len(),
{
    if acc.len() > 0 {
        lemma_product_extend_shape(acc.drop_last(), l);
        lemma_product_row_shape(acc.last(), l);
        assert((acc.len() - 1) * l.len() + l.len() == acc.len() * l.len()) by (nonlinear_arith);
        assert forall|i: int, j: int|
            0 <= i < acc.len() && 0 <= j < l.len() implies product_extend(acc, l)[i * l.len()
            + j] == #[trigger] acc[i].push(l[j]) by {
            let n = (acc.len() - 1) * l.len();
            if i < acc.len() - 1 {
                assert(i * l.len() + j < n) by (nonlinear_arith)
                    requires
                        0 <= i < acc.len() - 1,
                        0 <= j < l.len(),
                        n == (acc.len() - 1) * l.len(),
                ;
                assert(acc.drop_last()[i] == acc[i]);
            } else {
                assert(i * l.len() + j == n + j);
            }
        }
    }
}

/// Every combination in the product has one entry per domain, drawn from
/// that domain.
pub proof fn lemma_product_elem<A>(lists: Seq<Seq<A>>, e: Seq<A>)
    requires
        product(lists).contains(e),
    ensures
        e.len() == lists.len(),
        forall|i: int| 0 <= i < lists.len() ==> lists[i].contains(#[trigger] e[i]),
    decreases lists.len(),
{
    if lists.len() == 0 {
        assert(product(lists)[0] == e);
    } else {
        let acc = product(lists.drop_last());
        let l = lists.last();
        lemma_product_extend_shape(acc, l);
        let k = choose|k: int| 0 <= k < product(lists).len() && product(lists)[k] == e;
        let i = k / l.len() as int;
        let j = k % l.len() as int;
        assert(l.len() > 0) by {
            if l.len() == 0 {
                assert(product_extend(acc, l).len() == 0);
            }
        }
        vstd::arithmetic::div_mod::lemma_fundamental_div_mod(k, l.len() as int);
        assert(0 <= i < acc.len() && i * l.len() + j == k) by (nonlinear_arith)
            requires
                0 <= k < acc.len() * l.len(),
                l.len() > 0,
                i == k / l.len() as int,
                k == l.len() * i + j,
                0 <= j < l.len(),
        ;
        assert(e == acc[i].push(l[j]));
        assert(product(lists.drop_last()).contains(acc[i]));
        lemma_product_elem(lists.drop_last(), acc[i]);
        assert(acc[i].len() == lists.len() - 1);
        assert forall|m: int| 0 <= m < lists.len() implies lists[m].contains(
            #[trigger] e[m],
        ) by {
            if m < lists.len() - 1 {
                assert(e[m] == acc[i][m]);
                assert(lists.drop_last()[m].contains(acc[i][m]));
            } else {
                assert(e[m] == l[j]);
            }
        }
    }
}

fn copy_combination(c: &Vec<StimulusAttribute>) -> (r: Vec<StimulusAttribute>)
    ensures
        r.deep_view() == c.deep_view(),
        r@.len() == c@.len(),
{
    let mut r: Vec<StimulusAttribute> = Vec::new();
    let mut i: usize = 0;
    proof {
        assert(r.deep_view() =~= c.deep_view().take(0));
    }
    while i < c.len()
        invariant
            i <= c@.len(),
            r@.len() == i,
            r.deep_view() == c.deep_view().take(i as int),
        decreases c@.len() - i,
    {
        let dup = c[i].duplicate();
        r.push(dup);
        i += 1;
        proof {
            let rd = r.deep_view();
            let cd = c.deep_view();
            assert forall|m: int| 0 <= m < i implies rd[m] == cd.take(i as int)[m] by {
                assert(rd[m] == r@[m].deep_view());
                assert(cd[m] == c@[m].deep_view());
            }
            assert(rd =~= cd.take(i as int));
        }
    }
    proof {
        assert(c.deep_view().take(c@.len() as int) =~= c.deep_view());
    }
    r
}

/// The cartesian product of the given domains, as concrete combinations.
pub fn product_exec(lists: &Vec<Vec<StimulusAttribute>>) -> (r: Vec<Vec<StimulusAttribute>>)
    ensures
        r.deep_view() == product(lists.deep_view()),
{
    let mut acc: Vec<Vec<StimulusAttribute>> = Vec::new();
    acc.push(Vec::new());
    proof {
        assert(acc.deep_view() =~~= product(lists.deep_view().take(0)));
    }
    let mut li: usize = 0;
    while li < lists.len()
        invariant
            li <= lists@.len(),
            acc.deep_view() == product(lists.deep_view().take(li as int)),
        decreases lists@.len() - li,
    {
        let l = &lists[li];
        let mut next: Vec<Vec<StimulusAttribute>> = Vec::new();
        let mut ci: usize = 0;
        proof {
            assert(next.deep_view() =~~= product_extend(
                acc.deep_view().take(0),
                l.deep_view(),
            ));
        }
        while ci < acc.len()
            invariant
                ci <= acc@.len(),
                l.deep_view() == lists.deep_view()[li as int],
                li < lists@.len(),
                next.deep_view() == product_extend(acc.deep_view().take(ci as int), l.deep_view()),
            decreases acc@.len() - ci,
        {
            let c = &acc[ci];
            let mut vi: usize = 0;
            proof {
                assert(next.deep_view() =~~= product_extend(
                    acc.deep_view().take(ci as int),
                    l.deep_view(),
                ) + product_row(c.deep_view(), l.deep_view().take(0)));
            }
            while vi < l.len()
                invariant
                    vi <= l@.len(),
                    ci < acc@.len(),
                    l.deep_view() == lists.deep_view()[li as int],
                    c.deep_view() == acc.deep_view()[ci as int],
                    next.deep_view() == product_extend(
                        acc.deep_view().take(ci as int),
                        l.deep_view(),
                    ) + product_row(c.deep_view(), l.deep_view().take(vi as int)),
                decreases l@.len() - vi,
            {
                let mut combo = copy_combination(c);
                combo.push(l[vi].duplicate());
                proof {
                    let cdv = c.deep_view();
                    let lv = l.deep_view();
                    assert forall|m: int| 0 <= m < combo@.len() implies combo.deep_view()[m]
                        == cdv.push(lv[vi as int])[m] by {
                        assert(combo.deep_view()[m] == combo@[m].deep_view());
                    }
                    assert(combo.deep_view() =~= cdv.push(lv[vi as int]));
                }
                let ghost combod = combo.deep_view();
                let ghost prevd = next.deep_view();
                next.push(combo);
                vi += 1;
                proof {
                    let lv = l.deep_view();
                    let cdv = c.deep_view();
                    assert forall|m: int| 0 <= m < next@.len() implies next.deep_view()[m]
                        == prevd.push(combod)[m] by {
                        assert(next.deep_view()[m] == next@[m].deep_view());
                        if m < next@.len() - 1 {
                            assert(prevd[m] == next@[m].deep_view());
                        }
                    }
                    assert(next.deep_view() =~= prevd.push(combod));
                    let a = product_extend(acc.deep_view().take(ci as int), lv);
                    let rowp = product_row(cdv, lv.take(vi as int - 1));
                    assert(prevd.push(combod) =~= a + rowp.push(combod));
                    assert(lv.take(vi as int).drop_last() =~= lv.take(vi as int - 1));
                    assert(lv.take(vi as int).last() == lv[vi as int - 1]);
                    assert(rowp.push(combod) == product_row(cdv, lv.take(vi as int)));
                }
            }
            ci += 1;
            proof {
                let av = acc.deep_view();
                let lv = l.deep_view();
                assert(lv.take(lv.len() as int) =~= lv);
                assert(av.take(ci as int).drop_last() =~= av.take(ci as int - 1));
                assert(av.take(ci as int).last() == av[ci as int - 1]);
                assert(next.deep_view() =~~= product_extend(av.take(ci as int), lv));
            }
        }
        proof {
            let av = acc.deep_view();
            assert(av.take(av.len() as int) =~= av);
            assert(next.deep_view() == product_extend(
                product(lists.deep_view().take(li as int)),
                lists.deep_view()[li as int],
            ));
        }
        acc = next;
        li += 1;
        proof {
            let lsv = lists.deep_view();
            assert(lsv.take(li as int).drop_last() =~= lsv.take(li as int - 1));
            assert(lsv.take(li as int).last() == lsv[li as int - 1]);
            assert(acc.deep_view() == product(lsv.take(li as int)));
        }
    }
    proof {
        assert(lists.deep_view().take(lists@.len() as int) =~= lists.deep_view());
    }
    acc
}

} // verus!
