//! Resolution of position units against equivalence tables.

use vstd::prelude::*;
use crate::cartesian::{extend, get_cartesian_product, lists_view, product};
use crate::table::{
    contains_string, first_class_from, lookup, lookup_class, table_view, HomoglyphData, SplitType,
    Tables,
};
use crate::text::char_string;

verus! {

/// One position of a pattern: an escaped character, which is never
/// expanded, or the alternatives a plain position stands for.
pub enum SplitChar {
    Escaped(char),
    Plain(Vec<String>),
}

/// The meaning of a position unit: its escaped character, or its set of
/// alternatives.
pub enum UnitModel {
    Escaped(char),
    Plain(Set<Seq<char>>),
}

impl View for SplitChar {
    type V = UnitModel;

    open spec fn view(&self) -> UnitModel {
        match self {
            SplitChar::Escaped(c) => UnitModel::Escaped(*c),
            SplitChar::Plain(v) => UnitModel::Plain(v.deep_view().to_set()),
        }
    }
}

impl SplitChar {
    /// A plain unit lists each alternative once.
    pub open spec fn unique(&self) -> bool {
        match self {
            SplitChar::Escaped(_) => true,
            SplitChar::Plain(v) => v.deep_view().no_duplicates(),
        }
    }
}

/// The alternatives of one string under table `t`: a string of at most one
/// character resolves to its class; a longer one is resolved character by
/// character and the results are recombined in order.
pub open spec fn resolve_member(t: Seq<Seq<Seq<char>>>, s: Seq<char>) -> Seq<Seq<char>> {
    if s.len() <= 1 {
        lookup(t, s)
    } else {
        product(s.map_values(|c: char| lookup(t, seq![c])))
    }
}

/// The alternatives of a set of strings: the union of their resolutions.
pub open spec fn pass_set(t: Seq<Seq<Seq<char>>>, a: Set<Seq<char>>) -> Set<Seq<char>> {
    Set::new(|x: Seq<char>| exists|m: Seq<char>| a.contains(m) && resolve_member(t, m).contains(x))
}

/// One unit after a pass over `t`: escaped units stay as they are.
pub open spec fn pass_unit(t: Seq<Seq<Seq<char>>>, u: UnitModel) -> UnitModel {
    match u {
        UnitModel::Escaped(c) => UnitModel::Escaped(c),
        UnitModel::Plain(a) => UnitModel::Plain(pass_set(t, a)),
    }
}

/// Every unit after a pass over `t`.
pub open spec fn pass_units(t: Seq<Seq<Seq<char>>>, us: Seq<UnitModel>) -> Seq<UnitModel> {
    us.map_values(|u: UnitModel| pass_unit(t, u))
}

/// The resolutions of the first `i` strings of `al`, united.
spec fn union_upto(t: Seq<Seq<Seq<char>>>, al: Seq<Seq<char>>, i: int) -> Set<Seq<char>> {
    Set::new(|x: Seq<char>| exists|k: int| 0 <= k < i && resolve_member(t, al[k]).contains(x))
}

/// The class that lookup finds from position `i` on holds the string.
pub proof fn lemma_first_class_holds(t: Seq<Seq<Seq<char>>>, s: Seq<char>, i: int)
    requires
        0 <= i,
    ensures
        first_class_from(t, s, i) < t.len() ==> t[first_class_from(t, s, i)].contains(s),
        first_class_from(t, s, i) <= t.len(),
        i <= t.len() ==> i <= first_class_from(t, s, i),
    decreases t.len() - i,
{
    if i < t.len() && !t[i].contains(s) {
        lemma_first_class_holds(t, s, i + 1);
    }
}

/// A string of at most one character is among its own alternatives.
pub proof fn lemma_lookup_keeps(t: Seq<Seq<Seq<char>>>, s: Seq<char>)
    ensures
        lookup(t, s).contains(s),
{
    lemma_first_class_holds(t, s, 0);
    if first_class_from(t, s, 0) >= t.len() {
        assert(lookup(t, s)[0] == s);
    }
}

/// A pass never drops an alternative of at most one character.
pub proof fn lemma_pass_keeps_single(t: Seq<Seq<Seq<char>>>, a: Set<Seq<char>>, s: Seq<char>)
    requires
        a.contains(s),
        s.len() <= 1,
    ensures
        pass_set(t, a).contains(s),
{
    lemma_lookup_keeps(t, s);
    assert(resolve_member(t, s).contains(s));
}

/// No string belongs to two classes of `t`.
pub open spec fn classes_disjoint(t: Seq<Seq<Seq<char>>>) -> bool {
    forall|i: int, j: int, x: Seq<char>|
        0 <= i < t.len() && 0 <= j < t.len() && #[trigger] t[i].contains(x) && #[trigger] t[j].contains(
            x,
        ) ==> i == j
}

/// Every member of every class of `t` is a single character.
pub open spec fn members_single(t: Seq<Seq<Seq<char>>>) -> bool {
    forall|i: int, j: int| 0 <= i < t.len() && 0 <= j < t[i].len() ==> #[trigger] t[i][j].len() == 1
}

/// With disjoint classes, every alternative looks up the same class as the
/// string it came from.
proof fn lemma_lookup_stable(t: Seq<Seq<Seq<char>>>, s: Seq<char>, y: Seq<char>)
    requires
        classes_disjoint(t),
        lookup(t, s).contains(y),
    ensures
        lookup(t, y) == lookup(t, s),
{
    lemma_first_class_holds(t, s, 0);
    lemma_first_class_holds(t, y, 0);
    let k = first_class_from(t, s, 0);
    if k < t.len() {
        assert(t[k].contains(y));
        lemma_first_class_finds(t, y, 0, k);
        let k2 = first_class_from(t, y, 0);
        assert(t[k2].contains(y));
    } else {
        assert(lookup(t, s) == seq![s]);
        assert(y == s);
    }
}

/// Lookup finds a class whenever some class from `i` on holds the string.
proof fn lemma_first_class_finds(t: Seq<Seq<Seq<char>>>, s: Seq<char>, i: int, k: int)
    requires
        0 <= i <= k < t.len(),
        t[k].contains(s),
    ensures
        first_class_from(t, s, i) < t.len(),
    decreases k - i,
{
    if !t[i].contains(s) {
        lemma_first_class_finds(t, s, i + 1, k);
    }
}

/// Every alternative that lookup gives is a single character, or the
/// string itself.
proof fn lemma_lookup_members(t: Seq<Seq<Seq<char>>>, s: Seq<char>, y: Seq<char>)
    requires
        members_single(t),
        lookup(t, s).contains(y),
    ensures
        y.len() == 1 || y == s,
{
    lemma_first_class_holds(t, s, 0);
    let k = first_class_from(t, s, 0);
    if k < t.len() {
        let j = choose|j: int| 0 <= j < t[k].len() && t[k][j] == y;
        assert(t[k][j].len() == 1);
    } else {
        assert(lookup(t, s) == seq![s]);
    }
}

/// A member of `extend(p, b)` is a member of `p` followed by a member of `b`.
proof fn lemma_extend_member(p: Seq<Seq<char>>, b: Seq<Seq<char>>, y: Seq<char>)
    requires
        extend(p, b).contains(y),
    ensures
        exists|i: int, j: int|
            0 <= i < p.len() && 0 <= j < b.len() && y == #[trigger] p[i] + #[trigger] b[j],
    decreases p.len(),
{
    let n = extend(p.drop_last(), b).len();
    let e = extend(p, b);
    let k = choose|k: int| 0 <= k < e.len() && e[k] == y;
    if k < n {
        assert(extend(p.drop_last(), b)[k] == y);
        lemma_extend_member(p.drop_last(), b, y);
        let (i, j) = choose|i: int, j: int|
            0 <= i < p.drop_last().len() && 0 <= j < b.len() && y == #[trigger] p.drop_last()[i]
                + #[trigger] b[j];
        assert(p[i] == p.drop_last()[i]);
    } else {
        let j = k - n;
        assert(y == p.last() + b[j]);
        assert(y == p[p.len() - 1] + b[j]);
    }
}

/// Where every list holds single characters only, a member of the product
/// takes its `k`-th character from the `k`-th list.
proof fn lemma_product_member(ls: Seq<Seq<Seq<char>>>, y: Seq<char>)
    requires
        forall|k: int, j: int|
            0 <= k < ls.len() && 0 <= j < ls[k].len() ==> #[trigger] ls[k][j].len() == 1,
        product(ls).contains(y),
    ensures
        y.len() == ls.len(),
        forall|k: int| 0 <= k < ls.len() ==> #[trigger] ls[k].contains(seq![y[k]]),
    decreases ls.len(),
{
    if ls.len() == 0 {
        assert(product(ls) == seq![Seq::<char>::empty()]);
        assert(y == Seq::<char>::empty());
    } else {
        let d = ls.drop_last();
        lemma_extend_member(product(d), ls.last(), y);
        let (i, j) = choose|i: int, j: int|
            0 <= i < product(d).len() && 0 <= j < ls.last().len() && y == #[trigger] product(d)[i]
                + #[trigger] ls.last()[j];
        let q = product(d)[i];
        assert(product(d).contains(q));
        lemma_product_member(d, q);
        let b = ls.last()[j];
        assert(ls[ls.len() - 1][j].len() == 1);
        assert(b =~= seq![y[ls.len() - 1]]);
        assert forall|k: int| 0 <= k < ls.len() implies #[trigger] ls[k].contains(seq![y[k]]) by {
            if k < ls.len() - 1 {
                assert(d[k].contains(seq![q[k]]));
                assert(y[k] == q[k]);
            } else {
                assert(ls[k][j] == b);
            }
        }
    }
}

/// Resolving an alternative of `s` again gives the alternatives of `s`.
proof fn lemma_resolve_stable(t: Seq<Seq<Seq<char>>>, s: Seq<char>, y: Seq<char>)
    requires
        classes_disjoint(t),
        members_single(t),
        resolve_member(t, s).contains(y),
    ensures
        resolve_member(t, y) == resolve_member(t, s),
{
    if s.len() <= 1 {
        lemma_lookup_members(t, s, y);
        lemma_lookup_stable(t, s, y);
    } else {
        let ls = s.map_values(|c: char| lookup(t, seq![c]));
        assert forall|k: int, j: int|
            0 <= k < ls.len() && 0 <= j < ls[k].len() implies #[trigger] ls[k][j].len() == 1 by {
            assert(ls[k].contains(ls[k][j]));
            lemma_lookup_members(t, seq![s[k]], ls[k][j]);
        }
        lemma_product_member(ls, y);
        let ly = y.map_values(|c: char| lookup(t, seq![c]));
        assert forall|k: int| 0 <= k < ls.len() implies #[trigger] ly[k] == ls[k] by {
            assert(ls[k] == lookup(t, seq![s[k]]));
            assert(ls[k].contains(seq![y[k]]));
            lemma_lookup_stable(t, seq![s[k]], seq![y[k]]);
        }
        assert(ly =~= ls);
    }
}

/// A resolution always holds the string it started from.
proof fn lemma_resolve_keeps(t: Seq<Seq<Seq<char>>>, s: Seq<char>)
    requires
        classes_disjoint(t),
        members_single(t),
    ensures
        resolve_member(t, s).contains(s),
{
    if s.len() <= 1 {
        lemma_lookup_keeps(t, s);
    } else {
        let ls = s.map_values(|c: char| lookup(t, seq![c]));
        assert forall|k: int| 0 <= k < ls.len() implies #[trigger] ls[k].contains(seq![s[k]]) by {
            lemma_lookup_keeps(t, seq![s[k]]);
        }
        lemma_product_has(ls, s);
    }
}

/// A string that takes its `k`-th character from the `k`-th list is in the
/// product.
proof fn lemma_product_has(ls: Seq<Seq<Seq<char>>>, y: Seq<char>)
    requires
        y.len() == ls.len(),
        forall|k: int| 0 <= k < ls.len() ==> #[trigger] ls[k].contains(seq![y[k]]),
    ensures
        product(ls).contains(y),
    decreases ls.len(),
{
    if ls.len() == 0 {
        assert(y =~= Seq::<char>::empty());
        assert(product(ls)[0] == y);
    } else {
        let d = ls.drop_last();
        let q = y.drop_last();
        assert forall|k: int| 0 <= k < d.len() implies #[trigger] d[k].contains(seq![q[k]]) by {
            assert(ls[k].contains(seq![y[k]]));
        }
        lemma_product_has(d, q);
        let i = choose|i: int| 0 <= i < product(d).len() && product(d)[i] == q;
        let b = ls.last();
        assert(b.contains(seq![y[ls.len() - 1]]));
        let j = choose|j: int| 0 <= j < b.len() && b[j] == seq![y[ls.len() - 1]];
        lemma_extend_has(product(d), b, i, j);
        assert(q + b[j] =~= y);
    }
}

/// `p[i] + b[j]` is in `extend(p, b)`.
proof fn lemma_extend_has(p: Seq<Seq<char>>, b: Seq<Seq<char>>, i: int, j: int)
    requires
        0 <= i < p.len(),
        0 <= j < b.len(),
    ensures
        extend(p, b).contains(p[i] + b[j]),
    decreases p.len(),
{
    let n = extend(p.drop_last(), b).len();
    if i < p.len() - 1 {
        lemma_extend_has(p.drop_last(), b, i, j);
        let k = choose|k: int| 0 <= k < n && extend(p.drop_last(), b)[k] == p.drop_last()[i] + b[j];
        assert(extend(p, b)[k] == p[i] + b[j]);
    } else {
        assert(extend(p, b)[n + j] == p.last() + b[j]);
    }
}

/// Over a table of disjoint classes of single characters, a second pass
/// adds nothing to what the first one gave.
pub proof fn lemma_pass_idempotent(t: Seq<Seq<Seq<char>>>, a: Set<Seq<char>>)
    requires
        classes_disjoint(t),
        members_single(t),
    ensures
        pass_set(t, pass_set(t, a)) == pass_set(t, a),
{
    assert forall|x: Seq<char>| #[trigger] pass_set(t, pass_set(t, a)).contains(x) == pass_set(
        t,
        a,
    ).contains(x) by {
        if pass_set(t, pass_set(t, a)).contains(x) {
            let y = choose|y: Seq<char>| pass_set(t, a).contains(y) && resolve_member(t, y).contains(x);
            let m = choose|m: Seq<char>| a.contains(m) && resolve_member(t, m).contains(y);
            lemma_resolve_stable(t, m, y);
        }
        if pass_set(t, a).contains(x) {
            let m = choose|m: Seq<char>| a.contains(m) && resolve_member(t, m).contains(x);
            lemma_resolve_stable(t, m, x);
            lemma_resolve_keeps(t, x);
        }
    }
    assert(pass_set(t, pass_set(t, a)) =~= pass_set(t, a));
}

/// The units version: a second pass of such a table changes no unit.
pub proof fn lemma_pass_units_idempotent(t: Seq<Seq<Seq<char>>>, us: Seq<UnitModel>)
    requires
        classes_disjoint(t),
        members_single(t),
    ensures
        pass_units(t, pass_units(t, us)) == pass_units(t, us),
{
    assert forall|i: int| 0 <= i < us.len() implies #[trigger] pass_units(t, pass_units(t, us))[i]
        == pass_units(t, us)[i] by {
        if us[i] is Plain {
            lemma_pass_idempotent(t, us[i]->Plain_0);
        }
    }
    assert(pass_units(t, pass_units(t, us)) =~= pass_units(t, us));
}

/// The alternatives of `pchar` under table `t`.
pub fn contains_hmg_text(t: &Vec<HomoglyphData>, pchar: String) -> (r: Vec<String>)
    ensures
        r.deep_view() == resolve_member(table_view(t@), pchar@),
{
    let n = pchar.as_str().unicode_len();
    if n <= 1 {
        return lookup_class(t, &pchar);
    }
    let ghost tv = table_view(t@);
    let ghost target = pchar@.map_values(|c: char| lookup(tv, seq![c]));
    let mut lists: Vec<Vec<String>> = Vec::new();
    let mut i: usize = 0;
    while i < n
        invariant
            0 <= i <= n,
            n == pchar@.len(),
            tv == table_view(t@),
            target == pchar@.map_values(|c: char| lookup(tv, seq![c])),
            lists_view(lists@) =~= target.take(i as int),
        decreases n - i,
    {
        let c = pchar.as_str().get_char(i);
        let cs = char_string(c);
        let class = lookup_class(t, &cs);
        let ghost before = lists@;
        lists.push(class);
        proof {
            assert(lists_view(lists@) =~= lists_view(before).push(lookup(tv, seq![c])));
            assert(target.take(i + 1) =~= target.take(i as int).push(target[i as int]));
        }
        i += 1;
    }
    proof {
        assert(target.take(n as int) =~= target);
    }
    get_cartesian_product(&lists)
}

/// Adds `s` to `r` unless it is there already.
fn push_unique(r: &mut Vec<String>, s: String)
    requires
        old(r).deep_view().no_duplicates(),
    ensures
        final(r).deep_view().no_duplicates(),
        final(r).deep_view().to_set() == old(r).deep_view().to_set().insert(s@),
{
    let ghost before = r.deep_view();
    if contains_string(r, &s) {
        proof {
            assert(before.to_set() =~= before.to_set().insert(s@));
        }
    } else {
        r.push(s);
        proof {
            assert(r.deep_view() =~= before.push(s@));
            assert(r.deep_view().to_set() =~= before.to_set().insert(s@)) by {
                before.lemma_push_to_set_commute(s@);
            }
        }
    }
}

/// The alternatives of a set of strings under `t`, each listed once.
fn resolve_alternatives(t: &Vec<HomoglyphData>, alts: &Vec<String>) -> (r: Vec<String>)
    ensures
        r.deep_view().to_set() == pass_set(table_view(t@), alts.deep_view().to_set()),
        r.deep_view().no_duplicates(),
{
    let ghost tv = table_view(t@);
    let ghost al = alts.deep_view();
    let mut r: Vec<String> = Vec::new();
    proof {
        assert(r.deep_view().to_set() =~= union_upto(tv, al, 0));
    }
    let mut i: usize = 0;
    while i < alts.len()
        invariant
            0 <= i <= alts.len(),
            tv == table_view(t@),
            al == alts.deep_view(),
            r.deep_view().no_duplicates(),
            r.deep_view().to_set() == union_upto(tv, al, i as int),
        decreases alts.len() - i,
    {
        let rs = contains_hmg_text(t, alts[i].clone());
        let ghost rv = rs.deep_view();
        let mut j: usize = 0;
        while j < rs.len()
            invariant
                0 <= i < alts.len(),
                0 <= j <= rs.len(),
                tv == table_view(t@),
                al == alts.deep_view(),
                rv == rs.deep_view(),
                rv == resolve_member(tv, al[i as int]),
                r.deep_view().no_duplicates(),
                r.deep_view().to_set() == union_upto(tv, al, i as int).union(
                    rv.take(j as int).to_set(),
                ),
            decreases rs.len() - j,
        {
            push_unique(&mut r, rs[j].clone());
            proof {
                assert(rv.take(j + 1) =~= rv.take(j as int).push(rv[j as int]));
                rv.take(j as int).lemma_push_to_set_commute(rv[j as int]);
                assert(r.deep_view().to_set() =~= union_upto(tv, al, i as int).union(
                    rv.take(j + 1).to_set(),
                ));
            }
            j += 1;
        }
        proof {
            assert(rv.take(j as int) =~= rv);
            assert forall|x: Seq<char>|
                #[trigger] union_upto(tv, al, i + 1).contains(x) == (union_upto(
                    tv,
                    al,
                    i as int,
                ).contains(x) || rv.to_set().contains(x)) by {
                if rv.to_set().contains(x) {
                    assert(rv.contains(x));
                    assert(resolve_member(tv, al[i as int]).contains(x));
                }
                if union_upto(tv, al, i + 1).contains(x) {
                    let k = choose|k: int| 0 <= k < i + 1 && resolve_member(tv, al[k]).contains(x);
                    if k == i {
                        assert(rv.contains(x));
                    }
                }
            }
            assert(r.deep_view().to_set() =~= union_upto(tv, al, i + 1));
        }
        i += 1;
    }
    proof {
        assert forall|x: Seq<char>|
            #[trigger] pass_set(tv, al.to_set()).contains(x) == union_upto(
                tv,
                al,
                al.len() as int,
            ).contains(x) by {
            if pass_set(tv, al.to_set()).contains(x) {
                let m = choose|m: Seq<char>|
                    al.to_set().contains(m) && resolve_member(tv, m).contains(x);
                assert(al.contains(m));
                let k = choose|k: int| 0 <= k < al.len() && al[k] == m;
                assert(resolve_member(tv, al[k]).contains(x));
            }
            if union_upto(tv, al, al.len() as int).contains(x) {
                let k = choose|k: int| 0 <= k < al.len() && resolve_member(tv, al[k]).contains(x);
                assert(al.to_set().contains(al[k]));
            }
        }
        assert(r.deep_view().to_set() =~= pass_set(tv, al.to_set()));
    }
    r
}

/// One pass of table `t` over the units: each plain unit's alternatives are
/// replaced by their resolutions, each listed once; escaped units are kept.
pub fn resolve_pass(t: &Vec<HomoglyphData>, chars: Vec<SplitChar>) -> (r: Vec<SplitChar>)
    ensures
        r@.len() == chars@.len(),
        forall|i: int|
            0 <= i < r@.len() ==> #[trigger] r@[i]@ == pass_unit(table_view(t@), chars@[i]@),
        forall|i: int| 0 <= i < r@.len() ==> (#[trigger] r@[i]).unique(),
{
    let ghost tv = table_view(t@);
    let mut r: Vec<SplitChar> = Vec::new();
    let mut i: usize = 0;
    while i < chars.len()
        invariant
            0 <= i <= chars.len(),
            tv == table_view(t@),
            r@.len() == i,
            forall|k: int| 0 <= k < i ==> #[trigger] r@[k]@ == pass_unit(tv, chars@[k]@),
            forall|k: int| 0 <= k < i ==> (#[trigger] r@[k]).unique(),
        decreases chars.len() - i,
    {
        let u = match &chars[i] {
            SplitChar::Escaped(c) => SplitChar::Escaped(*c),
            SplitChar::Plain(alts) => SplitChar::Plain(resolve_alternatives(t, alts)),
        };
        r.push(u);
        i += 1;
    }
    r
}

/// One pass of the kana or the width table over the units.
pub fn get_jp_splitchar(split_type: SplitType, tables: &Tables, chars: Vec<SplitChar>) -> (r: Vec<
    SplitChar,
>)
    ensures
        r@.len() == chars@.len(),
        forall|i: int|
            0 <= i < r@.len() ==> #[trigger] r@[i]@ == pass_unit(
                table_view(tables.table_of(split_type)),
                chars@[i]@,
            ),
        forall|i: int| 0 <= i < r@.len() ==> (#[trigger] r@[i]).unique(),
{
    resolve_pass(tables.table(split_type), chars)
}

} // verus!
