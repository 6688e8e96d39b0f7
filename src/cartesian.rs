//! Cartesian products of string alternatives, concatenated.

use vstd::prelude::*;

verus! {

/// Every string of `p` followed by every string of `b`; the choice from `b`
/// varies fastest.
pub open spec fn extend(p: Seq<Seq<char>>, b: Seq<Seq<char>>) -> Seq<Seq<char>>
    decreases p.len(),
{
    if p.len() == 0 {
        seq![]
    } else {
        extend(p.drop_last(), b) + b.map_values(|y: Seq<char>| p.last() + y)
    }
}

/// All concatenations that take one string from each list, in list order,
/// the last list varying fastest. No lists give the one empty string.
pub open spec fn product(ls: Seq<Seq<Seq<char>>>) -> Seq<Seq<char>>
    decreases ls.len(),
{
    if ls.len() == 0 {
        seq![seq![]]
    } else {
        extend(product(ls.drop_last()), ls.last())
    }
}

/// The product of the lengths of the lists.
pub open spec fn count_of(ls: Seq<Seq<Seq<char>>>) -> nat
    decreases ls.len(),
{
    if ls.len() == 0 {
        1
    } else {
        count_of(ls.drop_last()) * ls.last().len()
    }
}

/// The view of a list of lists of strings.
pub open spec fn lists_view(ls: Seq<Vec<String>>) -> Seq<Seq<Seq<char>>> {
    ls.map_values(|l: Vec<String>| l.deep_view())
}

pub proof fn lemma_extend_len(p: Seq<Seq<char>>, b: Seq<Seq<char>>)
    ensures
        extend(p, b).len() == p.len() * b.len(),
    decreases p.len(),
{
    if p.len() > 0 {
        lemma_extend_len(p.drop_last(), b);
        assert(extend(p, b).len() == (p.len() - 1) * b.len() + b.len());
        assert((p.len() - 1) * b.len() + b.len() == p.len() * b.len()) by (nonlinear_arith);
    }
}

/// The number of candidates is the product of the numbers of alternatives.
pub proof fn lemma_product_len(ls: Seq<Seq<Seq<char>>>)
    ensures
        product(ls).len() == count_of(ls),
    decreases ls.len(),
{
    if ls.len() > 0 {
        lemma_product_len(ls.drop_last());
        lemma_extend_len(product(ls.drop_last()), ls.last());
    }
}

/// A product with an empty list has no members.
pub proof fn lemma_count_zero(ls: Seq<Seq<Seq<char>>>, k: int)
    requires
        0 <= k < ls.len(),
        ls[k].len() == 0,
    ensures
        count_of(ls) == 0,
    decreases ls.len(),
{
    let a = count_of(ls.drop_last());
    let b = ls.last().len();
    if k < ls.len() - 1 {
        lemma_count_zero(ls.drop_last(), k);
        assert(a * b == 0) by (nonlinear_arith)
            requires
                a == 0,
        ;
    } else {
        assert(a * b == 0) by (nonlinear_arith)
            requires
                b == 0,
        ;
    }
}

/// Where no list is empty, a prefix never has more combinations than the
/// whole.
pub proof fn lemma_count_prefix(ls: Seq<Seq<Seq<char>>>, i: int)
    requires
        0 <= i <= ls.len(),
        forall|k: int| 0 <= k < ls.len() ==> #[trigger] ls[k].len() >= 1,
    ensures
        count_of(ls.take(i)) <= count_of(ls),
    decreases ls.len(),
{
    if i == ls.len() {
        assert(ls.take(i) =~= ls);
    } else {
        let d = ls.drop_last();
        assert(d.take(i) =~= ls.take(i));
        lemma_count_prefix(d, i);
        let a = count_of(d);
        let b = ls.last().len();
        assert(b >= 1);
        assert(a <= a * b) by (nonlinear_arith)
            requires
                b >= 1,
        ;
    }
}

/// Appends `b` to a copy of `a`.
fn concat_strings(a: &String, b: &String) -> (r: String)
    ensures
        r@ == a@ + b@,
{
    let mut r = a.clone();
    r.append(b.as_str());
    r
}

/// Each string of `a` followed by each string of `b`.
fn partial_cartesian(a: Vec<String>, b: &Vec<String>) -> (r: Vec<String>)
    ensures
        r.deep_view() == extend(a.deep_view(), b.deep_view()),
{
    let ghost av = a.deep_view();
    let ghost bv = b.deep_view();
    let mut r: Vec<String> = Vec::new();
    let mut i: usize = 0;
    while i < a.len()
        invariant
            0 <= i <= a.len(),
            av == a.deep_view(),
            bv == b.deep_view(),
            r.deep_view() == extend(av.take(i as int), bv),
        decreases a.len() - i,
    {
        let mut j: usize = 0;
        while j < b.len()
            invariant
                0 <= i < a.len(),
                0 <= j <= b.len(),
                av == a.deep_view(),
                bv == b.deep_view(),
                r.deep_view() == extend(av.take(i as int), bv) + bv.take(j as int).map_values(
                    |y: Seq<char>| av[i as int] + y,
                ),
            decreases b.len() - j,
        {
            let s = concat_strings(&a[i], &b[j]);
            let ghost before = r.deep_view();
            r.push(s);
            proof {
                assert(r.deep_view() =~= before.push(av[i as int] + bv[j as int]));
                assert(bv.take(j + 1).map_values(|y: Seq<char>| av[i as int] + y)
                    =~= bv.take(j as int).map_values(|y: Seq<char>| av[i as int] + y).push(
                    av[i as int] + bv[j as int],
                ));
                assert(r.deep_view() =~= extend(av.take(i as int), bv) + bv.take(
                    j + 1,
                ).map_values(|y: Seq<char>| av[i as int] + y));
            }
            j += 1;
        }
        proof {
            let t = av.take(i + 1);
            assert(t.drop_last() =~= av.take(i as int));
            assert(bv.take(j as int) =~= bv);
        }
        i += 1;
    }
    proof {
        assert(av.take(i as int) =~= av);
    }
    r
}

/// All concatenations that take one string from each list, the last list
/// varying fastest.
pub fn get_cartesian_product(lists: &Vec<Vec<String>>) -> (r: Vec<String>)
    ensures
        r.deep_view() == product(lists_view(lists@)),
        r@.len() == count_of(lists_view(lists@)),
{
    let ghost lv = lists_view(lists@);
    let mut acc: Vec<String> = Vec::new();
    acc.push(String::new());
    proof {
        assert(acc.deep_view() =~= product(lv.take(0)));
    }
    let mut i: usize = 0;
    while i < lists.len()
        invariant
            0 <= i <= lists.len(),
            lv == lists_view(lists@),
            acc.deep_view() == product(lv.take(i as int)),
        decreases lists.len() - i,
    {
        acc = partial_cartesian(acc, &lists[i]);
        proof {
            assert(lv.take(i + 1).drop_last() =~= lv.take(i as int));
        }
        i += 1;
    }
    proof {
        assert(lv.take(i as int) =~= lv);
        lemma_product_len(lv);
    }
    acc
}

} // verus!
