//! Equivalence tables: ordered lists of classes of interchangeable strings.

use vstd::prelude::*;

verus! {

/// One equivalence class: strings that are mutually interchangeable.
pub struct HomoglyphData {
    pub data: Vec<String>,
}

/// The three tables that resolution draws on.
pub struct Tables {
    pub homoglyph: Vec<HomoglyphData>,
    pub kana: Vec<HomoglyphData>,
    pub width: Vec<HomoglyphData>,
}

/// Which Japanese table a pass uses.
#[derive(Clone, Copy, Debug, PartialEq, Eq, Structural)]
pub enum SplitType {
    Kana,
    HalfFullWidth,
}

/// The classes of a table, each as the sequence of its members.
pub open spec fn table_view(t: Seq<HomoglyphData>) -> Seq<Seq<Seq<char>>> {
    t.map_values(|c: HomoglyphData| c.data.deep_view())
}

/// Index of the first class at or after `i` that holds `s`; the table's
/// length when there is none.
pub open spec fn first_class_from(t: Seq<Seq<Seq<char>>>, s: Seq<char>, i: int) -> int
    decreases t.len() - i,
{
    if i < 0 || i >= t.len() {
        t.len() as int
    } else if t[i].contains(s) {
        i
    } else {
        first_class_from(t, s, i + 1)
    }
}

/// The members of the first class holding `s`, or `s` alone when no class
/// holds it.
pub open spec fn lookup(t: Seq<Seq<Seq<char>>>, s: Seq<char>) -> Seq<Seq<char>> {
    let k = first_class_from(t, s, 0);
    if k < t.len() {
        t[k]
    } else {
        seq![s]
    }
}

impl Tables {
    pub open spec fn table_of(&self, k: SplitType) -> Seq<HomoglyphData> {
        match k {
            SplitType::Kana => self.kana@,
            SplitType::HalfFullWidth => self.width@,
        }
    }

    /// The table that a pass of kind `k` uses.
    pub fn table(&self, k: SplitType) -> (r: &Vec<HomoglyphData>)
        ensures
            r@ == self.table_of(k),
    {
        match k {
            SplitType::Kana => &self.kana,
            SplitType::HalfFullWidth => &self.width,
        }
    }
}

/// Whether `v` holds `s`.
pub fn contains_string(v: &Vec<String>, s: &String) -> (r: bool)
    ensures
        r == v.deep_view().contains(s@),
{
    let mut i: usize = 0;
    while i < v.len()
        invariant
            0 <= i <= v.len(),
            forall|k: int| 0 <= k < i ==> v.deep_view()[k] != s@,
        decreases v.len() - i,
    {
        if v[i] == *s {
            assert(v.deep_view()[i as int] == s@);
            return true;
        }
        i += 1;
    }
    false
}

/// The members of the first class of `t` that holds `s`, or `s` alone.
pub fn lookup_class(t: &Vec<HomoglyphData>, s: &String) -> (r: Vec<String>)
    ensures
        r.deep_view() == lookup(table_view(t@), s@),
{
    let ghost tv = table_view(t@);
    let mut i: usize = 0;
    while i < t.len()
        invariant
            0 <= i <= t.len(),
            tv == table_view(t@),
            first_class_from(tv, s@, 0) == first_class_from(tv, s@, i as int),
        decreases t.len() - i,
    {
        if contains_string(&t[i].data, s) {
            return t[i].data.clone();
        }
        i += 1;
    }
    let mut r: Vec<String> = Vec::new();
    r.push(s.clone());
    proof {
        assert(r.deep_view() =~= seq![s@]);
    }
    r
}

} // verus!
