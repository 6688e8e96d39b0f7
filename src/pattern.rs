//! Pattern expansion: tokenizing, resolution passes and the two assemblers.

use vstd::prelude::*;
use crate::cartesian::{
    count_of, get_cartesian_product, lemma_count_prefix, lemma_count_zero, lists_view, product,
};
use crate::resolve::{
    classes_disjoint, get_jp_splitchar, lemma_pass_keeps_single, lemma_pass_units_idempotent,
    members_single, pass_units, resolve_pass, SplitChar, UnitModel,
};
use crate::table::{table_view, SplitType, Tables};
use crate::text::{
    char_string, escape_char, escape_default_of, regex_escape, regex_escaped, utf8_text,
};
use vstd::utf8::{decode_utf8, valid_utf8};

verus! {

/// Why a pattern could not be expanded.
#[derive(Clone, Copy, Debug, PartialEq, Eq, Structural)]
pub enum PatternError {
    /// The text ends with an escape marker that escapes nothing.
    MalformedInput,
    /// The bytes given are not well-formed UTF-8.
    InvalidText,
    /// Listing every candidate would exceed the allowed count.
    ResourceExhausted,
}

/// The options of an expansion.
pub struct HomoglyphsView {
    pub is_literal: bool,
    pub is_ignore_case: bool,
    pub with_leet: bool,
    pub with_japanese_kana: bool,
    pub with_cjk_width: bool,
}

/// Expands patterns into their confusable variants.
pub struct Homoglyphs {
    is_literal: bool,
    is_ignore_case: bool,
    with_leet: bool,
    with_japanese_kana: bool,
    with_cjk_width: bool,
}

impl View for Homoglyphs {
    type V = HomoglyphsView;

    closed spec fn view(&self) -> HomoglyphsView {
        HomoglyphsView {
            is_literal: self.is_literal,
            is_ignore_case: self.is_ignore_case,
            with_leet: self.with_leet,
            with_japanese_kana: self.with_japanese_kana,
            with_cjk_width: self.with_cjk_width,
        }
    }
}

/// The units of `s` from position `i` on: a backslash escapes the character
/// after it and yields no unit of its own; any other character is a plain
/// unit standing for itself. A trailing backslash makes the text malformed.
pub open spec fn tokens_from(s: Seq<char>, i: int) -> Option<Seq<UnitModel>>
    decreases s.len() - i,
{
    if i < 0 || i >= s.len() {
        Some(seq![])
    } else if s[i] == '\\' {
        if i + 1 >= s.len() {
            None
        } else {
            match tokens_from(s, i + 2) {
                Some(r) => Some(seq![UnitModel::Escaped(s[i + 1])] + r),
                None => None,
            }
        }
    } else {
        match tokens_from(s, i + 1) {
            Some(r) => Some(seq![UnitModel::Plain(set![seq![s[i]]])] + r),
            None => None,
        }
    }
}

/// The units of `s`, or `None` when `s` is malformed.
pub open spec fn tokens(s: Seq<char>) -> Option<Seq<UnitModel>> {
    tokens_from(s, 0)
}

/// The text that is tokenized: regex-escaped first when it is to be taken
/// literally.
pub open spec fn prepared(is_literal: bool, s: Seq<char>) -> Seq<char> {
    if is_literal {
        regex_escaped(s)
    } else {
        s
    }
}

/// The units after the configured Japanese passes: kana, width, then kana
/// again.
pub open spec fn cjk_resolved(o: HomoglyphsView, tables: &Tables, us: Seq<UnitModel>) -> Seq<
    UnitModel,
> {
    let k = table_view(tables.kana@);
    let w = table_view(tables.width@);
    let u1 = if o.with_japanese_kana { pass_units(k, us) } else { us };
    let u2 = if o.with_cjk_width { pass_units(w, u1) } else { u1 };
    if o.with_japanese_kana { pass_units(k, u2) } else { u2 }
}

/// The units after every configured pass: the Japanese ones, then
/// homoglyphs, which always apply.
pub open spec fn resolved(o: HomoglyphsView, tables: &Tables, us: Seq<UnitModel>) -> Seq<UnitModel> {
    pass_units(table_view(tables.homoglyph@), cjk_resolved(o, tables, us))
}

/// `r` is how unit `u` is handed out: an escaped character as its one
/// escaped rendering, a plain unit as its alternatives, each listed once.
pub open spec fn renders(r: Seq<Seq<char>>, u: UnitModel) -> bool {
    match u {
        UnitModel::Escaped(c) => r == seq![escape_default_of(c)],
        UnitModel::Plain(a) => r.to_set() == a && r.no_duplicates(),
    }
}

/// `r` is the expansion of `text` under options `o`: the malformed-input
/// error when the prepared text does not tokenize, else each position
/// rendered from its resolved unit.
pub open spec fn expands(
    o: HomoglyphsView,
    tables: &Tables,
    text: Seq<char>,
    r: Result<Vec<Vec<String>>, PatternError>,
) -> bool {
    match tokens(prepared(o.is_literal, text)) {
        None => r == Err::<Vec<Vec<String>>, PatternError>(PatternError::MalformedInput),
        Some(us) => r is Ok && {
            let m = resolved(o, tables, us);
            let v = r->Ok_0@;
            v.len() == m.len() && forall|i: int|
                0 <= i < v.len() ==> renders(#[trigger] v[i].deep_view(), m[i])
        },
    }
}

/// The meanings of a sequence of units.
pub open spec fn units_view(v: Seq<SplitChar>) -> Seq<UnitModel> {
    v.map_values(|u: SplitChar| u@)
}

/// `p` followed by `r`, when there is an `r`.
pub open spec fn glue(p: Seq<UnitModel>, r: Option<Seq<UnitModel>>) -> Option<Seq<UnitModel>> {
    match r {
        Some(r) => Some(p + r),
        None => None,
    }
}

/// The alternatives of the members in a unit, joined by `|`.
pub open spec fn joined(u: Seq<Seq<char>>) -> Seq<char>
    decreases u.len(),
{
    if u.len() == 0 {
        seq![]
    } else if u.len() == 1 {
        u[0]
    } else {
        joined(u.drop_last()) + seq!['|'] + u.last()
    }
}

/// One unit in regex form: a single member as it is, several as a
/// parenthesized alternation.
pub open spec fn render_unit(u: Seq<Seq<char>>) -> Seq<char> {
    if u.len() > 1 {
        seq!['('] + joined(u) + seq![')']
    } else {
        joined(u)
    }
}

/// The regex form of a pattern: its units rendered in order.
pub open spec fn regex_of(p: Seq<Seq<Seq<char>>>) -> Seq<char>
    decreases p.len(),
{
    if p.len() == 0 {
        seq![]
    } else {
        regex_of(p.drop_last()) + render_unit(p.last())
    }
}

/// Every pass keeps position `i`'s kind: an escaped unit stays the same
/// escaped unit, and a plain unit keeps each alternative of at most one
/// character, the character it started from among them.
pub proof fn lemma_resolved_unit(o: HomoglyphsView, tables: &Tables, us: Seq<UnitModel>, i: int)
    requires
        0 <= i < us.len(),
    ensures
        resolved(o, tables, us).len() == us.len(),
        us[i] is Escaped ==> resolved(o, tables, us)[i] == us[i],
        us[i] is Plain ==> resolved(o, tables, us)[i] is Plain && forall|s: Seq<char>|
            us[i]->Plain_0.contains(s) && s.len() <= 1 ==> #[trigger] resolved(
                o,
                tables,
                us,
            )[i]->Plain_0.contains(s),
{
    let k = table_view(tables.kana@);
    let w = table_view(tables.width@);
    let h = table_view(tables.homoglyph@);
    let u1 = if o.with_japanese_kana { pass_units(k, us) } else { us };
    let u2 = if o.with_cjk_width { pass_units(w, u1) } else { u1 };
    let u3 = if o.with_japanese_kana { pass_units(k, u2) } else { u2 };
    if us[i] is Plain {
        assert forall|s: Seq<char>|
            us[i]->Plain_0.contains(s) && s.len() <= 1 implies #[trigger] resolved(
                o,
                tables,
                us,
            )[i]->Plain_0.contains(s) by {
            if o.with_japanese_kana {
                lemma_pass_keeps_single(k, us[i]->Plain_0, s);
            }
            if o.with_cjk_width {
                lemma_pass_keeps_single(w, u1[i]->Plain_0, s);
            }
            if o.with_japanese_kana {
                lemma_pass_keeps_single(k, u2[i]->Plain_0, s);
            }
            lemma_pass_keeps_single(h, u3[i]->Plain_0, s);
        }
    }
}

/// Where the kana table's classes are disjoint and hold single characters,
/// a third kana pass after kana, width and kana adds nothing.
pub proof fn lemma_kana_third_pass(o: HomoglyphsView, tables: &Tables, us: Seq<UnitModel>)
    requires
        o.with_japanese_kana,
        classes_disjoint(table_view(tables.kana@)),
        members_single(table_view(tables.kana@)),
    ensures
        pass_units(table_view(tables.kana@), cjk_resolved(o, tables, us)) == cjk_resolved(
            o,
            tables,
            us,
        ),
{
    let k = table_view(tables.kana@);
    let w = table_view(tables.width@);
    let u1 = pass_units(k, us);
    let u2 = if o.with_cjk_width { pass_units(w, u1) } else { u1 };
    lemma_pass_units_idempotent(k, u2);
}

/// The regex form of two patterns one after the other is the two regex
/// forms one after the other.
pub proof fn lemma_regex_concat(p: Seq<Seq<Seq<char>>>, q: Seq<Seq<Seq<char>>>)
    ensures
        regex_of(p + q) == regex_of(p) + regex_of(q),
    decreases q.len(),
{
    if q.len() == 0 {
        assert(p + q =~= p);
    } else {
        assert((p + q).drop_last() =~= p + q.drop_last());
        lemma_regex_concat(p, q.drop_last());
    }
}

/// A unit with a single member stands in the regex form as that member
/// alone, with no group around it.
pub proof fn lemma_single_member_rendering(p: Seq<Seq<Seq<char>>>, i: int, e: Seq<char>)
    requires
        0 <= i < p.len(),
        p[i] == seq![e],
    ensures
        regex_of(p) == regex_of(p.take(i)) + e + regex_of(p.skip(i + 1)),
{
    assert(p =~= p.take(i) + seq![seq![e]] + p.skip(i + 1));
    lemma_regex_concat(p.take(i) + seq![seq![e]], p.skip(i + 1));
    lemma_regex_concat(p.take(i), seq![seq![e]]);
    let one = seq![seq![e]];
    assert(one.drop_last() =~= Seq::<Seq<Seq<char>>>::empty());
    assert(joined(seq![e]) == e);
    assert(render_unit(seq![e]) == e);
    assert(regex_of(one) == regex_of(one.drop_last()) + render_unit(one.last()));
    assert(regex_of(one) =~= e);
}

/// A unit with alternatives `a` and `b` between single-member units `x` and
/// `y` gives `x(a|b)y`.
pub proof fn lemma_flanked_alternation(x: Seq<char>, a: Seq<char>, b: Seq<char>, y: Seq<char>)
    ensures
        regex_of(seq![seq![x], seq![a, b], seq![y]]) == x + seq!['('] + a + seq!['|'] + b + seq![
            ')',
        ] + y,
{
    let p = seq![seq![x], seq![a, b], seq![y]];
    assert(p.drop_last() =~= seq![seq![x], seq![a, b]]);
    assert(p.drop_last().drop_last() =~= seq![seq![x]]);
    assert(p.drop_last().drop_last().drop_last() =~= Seq::<Seq<Seq<char>>>::empty());
    assert(seq![a, b].drop_last() =~= seq![a]);
    assert(joined(seq![x]) == x);
    assert(joined(seq![y]) == y);
    assert(joined(seq![a]) == a);
    assert(joined(seq![a, b]) == a + seq!['|'] + b);
    let r1 = regex_of(p.drop_last().drop_last());
    assert(r1 == regex_of(p.drop_last().drop_last().drop_last()) + render_unit(seq![x]));
    assert(r1 =~= x);
    let r2 = regex_of(p.drop_last());
    assert(r2 == r1 + render_unit(seq![a, b]));
    assert(regex_of(p) == r2 + render_unit(seq![y]));
    assert(regex_of(p) =~= x + seq!['('] + a + seq!['|'] + b + seq![')'] + y);
}

/// Splits a text into position units.
fn split_regex2schar(regex_text: &String) -> (r: Result<Vec<SplitChar>, PatternError>)
    ensures
        match tokens(regex_text@) {
            None => r == Err::<Vec<SplitChar>, PatternError>(PatternError::MalformedInput),
            Some(us) => r is Ok && units_view(r->Ok_0@) == us,
        },
{
    let ghost s = regex_text@;
    let n = regex_text.as_str().unicode_len();
    let mut result: Vec<SplitChar> = Vec::new();
    let mut i: usize = 0;
    while i < n
        invariant
            0 <= i <= n,
            n == s.len(),
            s == regex_text@,
            tokens(s) == glue(units_view(result@), tokens_from(s, i as int)),
        decreases n - i,
    {
        let c = regex_text.as_str().get_char(i);
        let ghost before = result@;
        if c == '\\' {
            if i + 1 == n {
                return Err(PatternError::MalformedInput);
            }
            let e = regex_text.as_str().get_char(i + 1);
            result.push(SplitChar::Escaped(e));
            proof {
                assert(units_view(result@) =~= units_view(before) + seq![UnitModel::Escaped(e)]);
                match tokens_from(s, i + 2) {
                    Some(r) => {
                        assert(units_view(before) + (seq![UnitModel::Escaped(e)] + r)
                            =~= units_view(result@) + r);
                    },
                    None => {},
                }
            }
            i += 2;
        } else {
            let mut alts: Vec<String> = Vec::new();
            alts.push(char_string(c));
            result.push(SplitChar::Plain(alts));
            proof {
                assert(alts.deep_view() =~= seq![seq![c]]);
                assert(seq![seq![c]].to_set() =~= set![seq![c]]) by {
                    seq![seq![c]].lemma_push_to_set_commute(seq![c]);
                    assert(seq![seq![c]] =~= Seq::<Seq<char>>::empty().push(seq![c]));
                    Seq::<Seq<char>>::empty().lemma_push_to_set_commute(seq![c]);
                }
                assert(units_view(result@) =~= units_view(before) + seq![
                    UnitModel::Plain(set![seq![c]]),
                ]);
                match tokens_from(s, i + 1) {
                    Some(r) => {
                        assert(units_view(before) + (seq![UnitModel::Plain(set![seq![c]])] + r)
                            =~= units_view(result@) + r);
                    },
                    None => {},
                }
            }
            i += 1;
        }
    }
    proof {
        assert(units_view(result@) + seq![] =~= units_view(result@));
    }
    Ok(result)
}

/// The unit views of `v` equal `m`, one for one.
spec fn units_are(v: Seq<SplitChar>, m: Seq<UnitModel>) -> bool {
    v.len() == m.len() && forall|i: int| 0 <= i < v.len() ==> #[trigger] v[i]@ == m[i]
}

impl Homoglyphs {
    /// Options with every switch off.
    pub fn new() -> (r: Self)
        ensures
            r@ == (HomoglyphsView {
                is_literal: false,
                is_ignore_case: false,
                with_leet: false,
                with_japanese_kana: false,
                with_cjk_width: false,
            }),
    {
        Homoglyphs {
            is_literal: false,
            is_ignore_case: false,
            with_leet: false,
            with_japanese_kana: false,
            with_cjk_width: false,
        }
    }

    /// Whether the text is to be taken literally, its regex meta characters
    /// escaped before tokenizing.
    pub fn is_literal(&mut self, yes: bool) -> (r: &mut Self)
        ensures
            r@ == (HomoglyphsView { is_literal: yes, ..old(self)@ }),
            final(self)@ == final(r)@,
    {
        self.is_literal = yes;
        self
    }

    /// Whether matching is to ignore case; this is left to the matcher.
    pub fn is_ignore_case(&mut self, yes: bool) -> (r: &mut Self)
        ensures
            r@ == (HomoglyphsView { is_ignore_case: yes, ..old(self)@ }),
            final(self)@ == final(r)@,
    {
        self.is_ignore_case = yes;
        self
    }

    /// Whether leet spellings are wanted; no pass draws on it.
    pub fn with_leet(&mut self, yes: bool) -> (r: &mut Self)
        ensures
            r@ == (HomoglyphsView { with_leet: yes, ..old(self)@ }),
            final(self)@ == final(r)@,
    {
        self.with_leet = yes;
        self
    }

    /// Whether hiragana and katakana are interchangeable.
    pub fn with_japanese_kana(&mut self, yes: bool) -> (r: &mut Self)
        ensures
            r@ == (HomoglyphsView { with_japanese_kana: yes, ..old(self)@ }),
            final(self)@ == final(r)@,
    {
        self.with_japanese_kana = yes;
        self
    }

    /// Whether half-width and full-width forms are interchangeable.
    pub fn with_cjk_width(&mut self, yes: bool) -> (r: &mut Self)
        ensures
            r@ == (HomoglyphsView { with_cjk_width: yes, ..old(self)@ }),
            final(self)@ == final(r)@,
    {
        self.with_cjk_width = yes;
        self
    }

    /// The alternatives of each position of `plane`, in order: an escaped
    /// position as its one escaped rendering, a plain one as the set its
    /// character resolves to under the configured passes.
    pub fn get_pattern(&self, tables: &Tables, plane: &str) -> (r: Result<Vec<Vec<String>>, PatternError>)
        ensures
            expands(self@, tables, plane@, r),
    {
        let text = if self.is_literal {
            regex_escape(plane)
        } else {
            String::from_str(plane)
        };
        let mut chars = match split_regex2schar(&text) {
            Ok(chars) => chars,
            Err(e) => {
                return Err(e);
            },
        };
        let ghost us = units_view(chars@);
        let ghost k = table_view(tables.kana@);
        let ghost w = table_view(tables.width@);
        let ghost u1 = if self.with_japanese_kana { pass_units(k, us) } else { us };
        let ghost u2 = if self.with_cjk_width { pass_units(w, u1) } else { u1 };
        let ghost u3 = if self.with_japanese_kana { pass_units(k, u2) } else { u2 };
        let ghost u4 = pass_units(table_view(tables.homoglyph@), u3);
        assert(units_are(chars@, us));
        if self.with_japanese_kana {
            chars = get_jp_splitchar(SplitType::Kana, tables, chars);
        }
        assert(units_are(chars@, u1));
        if self.with_cjk_width {
            chars = get_jp_splitchar(SplitType::HalfFullWidth, tables, chars);
        }
        assert(units_are(chars@, u2));
        if self.with_japanese_kana {
            chars = get_jp_splitchar(SplitType::Kana, tables, chars);
        }
        assert(units_are(chars@, u3));
        chars = resolve_pass(&tables.homoglyph, chars);
        assert(units_are(chars@, u4));
        let mut result: Vec<Vec<String>> = Vec::new();
        let mut i: usize = 0;
        while i < chars.len()
            invariant
                0 <= i <= chars.len(),
                units_are(chars@, u4),
                forall|j: int| 0 <= j < chars@.len() ==> (#[trigger] chars@[j]).unique(),
                result@.len() == i,
                forall|j: int| 0 <= j < i ==> renders(#[trigger] result@[j].deep_view(), u4[j]),
            decreases chars.len() - i,
        {
            let alts = match &chars[i] {
                SplitChar::Escaped(c) => {
                    let mut v: Vec<String> = Vec::new();
                    v.push(escape_char(*c));
                    assert(v.deep_view() =~= seq![escape_default_of(*c)]);
                    v
                },
                SplitChar::Plain(v) => v.clone(),
            };
            assert(chars@[i as int]@ == u4[i as int]);
            assert(chars@[i as int].unique());
            assert(renders(alts.deep_view(), u4[i as int]));
            result.push(alts);
            assert(result@[i as int] == alts);
            i += 1;
        }
        Ok(result)
    }
    /// The expansion of a pattern given as bytes, which must be well-formed
    /// UTF-8.
    pub fn get_pattern_from_bytes(&self, tables: &Tables, plane: &[u8]) -> (r: Result<
        Vec<Vec<String>>,
        PatternError,
    >)
        ensures
            !valid_utf8(plane@) ==> r == Err::<Vec<Vec<String>>, PatternError>(
                PatternError::InvalidText,
            ),
            valid_utf8(plane@) ==> expands(self@, tables, decode_utf8(plane@), r),
    {
        match utf8_text(plane) {
            Some(text) => self.get_pattern(tables, text),
            None => Err(PatternError::InvalidText),
        }
    }
}

/// The regex form of a pattern: a unit with one member as that member, a
/// unit with several as `(a|b|...)`, all in position order.
pub fn generate_pattern_regex(pattern: Vec<Vec<String>>) -> (r: String)
    ensures
        r@ == regex_of(lists_view(pattern@)),
{
    let ghost pv = lists_view(pattern@);
    let open_paren = char_string('(');
    let close_paren = char_string(')');
    let bar = char_string('|');
    let mut r = String::new();
    let mut i: usize = 0;
    while i < pattern.len()
        invariant
            0 <= i <= pattern.len(),
            pv == lists_view(pattern@),
            open_paren@ == seq!['('],
            close_paren@ == seq![')'],
            bar@ == seq!['|'],
            r@ == regex_of(pv.take(i as int)),
        decreases pattern.len() - i,
    {
        let p = &pattern[i];
        let ghost uv = p.deep_view();
        let mut t = String::new();
        let mut j: usize = 0;
        while j < p.len()
            invariant
                0 <= j <= p.len(),
                uv == p.deep_view(),
                bar@ == seq!['|'],
                t@ == joined(uv.take(j as int)),
            decreases p.len() - j,
        {
            if j > 0 {
                t.append(bar.as_str());
            }
            t.append(p[j].as_str());
            proof {
                assert(uv.take(j + 1).drop_last() =~= uv.take(j as int));
                if j == 0 {
                    assert(uv.take(0) =~= Seq::<Seq<char>>::empty());
                    assert(t@ =~= uv[0]);
                }
            }
            j += 1;
        }
        proof {
            assert(uv.take(j as int) =~= uv);
        }
        if p.len() > 1 {
            r.append(open_paren.as_str());
            r.append(t.as_str());
            r.append(close_paren.as_str());
        } else {
            r.append(t.as_str());
        }
        proof {
            assert(pv.take(i + 1).drop_last() =~= pv.take(i as int));
            assert(r@ =~= regex_of(pv.take(i + 1)));
        }
        i += 1;
    }
    proof {
        assert(pv.take(i as int) =~= pv);
    }
    r
}

/// Every literal candidate of a pattern, the last position varying fastest,
/// unless there would be more than `limit` of them.
pub fn generate_pattern_list(pattern: Vec<Vec<String>>, limit: usize) -> (r: Result<
    Vec<String>,
    PatternError,
>)
    ensures
        count_of(lists_view(pattern@)) > limit ==> r == Err::<Vec<String>, PatternError>(
            PatternError::ResourceExhausted,
        ),
        count_of(lists_view(pattern@)) <= limit ==> r is Ok && r->Ok_0.deep_view() == product(
            lists_view(pattern@),
        ),
{
    let ghost pv = lists_view(pattern@);
    let mut i: usize = 0;
    while i < pattern.len()
        invariant
            0 <= i <= pattern.len(),
            pv == lists_view(pattern@),
            forall|k: int| 0 <= k < i ==> #[trigger] pv[k].len() >= 1,
        decreases pattern.len() - i,
    {
        if pattern[i].len() == 0 {
            proof {
                lemma_count_zero(pv, i as int);
            }
            return Ok(get_cartesian_product(&pattern));
        }
        i += 1;
    }
    let mut n: usize = 1;
    let mut i: usize = 0;
    proof {
        assert(pv.take(0) =~= Seq::<Seq<Seq<char>>>::empty());
    }
    while i < pattern.len()
        invariant
            0 <= i <= pattern.len(),
            pv == lists_view(pattern@),
            forall|k: int| 0 <= k < pv.len() ==> #[trigger] pv[k].len() >= 1,
            n as nat == count_of(pv.take(i as int)),
            n <= limit || i == 0,
        decreases pattern.len() - i,
    {
        let len = pattern[i].len();
        proof {
            assert(pv.take(i + 1).drop_last() =~= pv.take(i as int));
        }
        assert((n as u128) * (len as u128) <= 0xffff_ffff_ffff_ffff_ffff_ffff_ffff_ffffu128)
            by (nonlinear_arith)
            requires
                n as u128 <= 0xffff_ffff_ffff_ffffu128,
                len as u128 <= 0xffff_ffff_ffff_ffffu128,
        ;
        let wide = (n as u128) * (len as u128);
        if wide > limit as u128 {
            proof {
                lemma_count_prefix(pv, i + 1);
            }
            return Err(PatternError::ResourceExhausted);
        }
        n = wide as usize;
        i += 1;
    }
    proof {
        assert(pv.take(i as int) =~= pv);
    }
    if n > limit {
        return Err(PatternError::ResourceExhausted);
    }
    Ok(get_cartesian_product(&pattern))
}

} // verus!
