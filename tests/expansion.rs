use hmgrep::cartesian::get_cartesian_product;
use hmgrep::config::{ColorMode, Config};
use hmgrep::pattern::{generate_pattern_list, generate_pattern_regex, Homoglyphs, PatternError};
use hmgrep::resolve::{contains_hmg_text, get_jp_splitchar, SplitChar};
use hmgrep::table::{HomoglyphData, SplitType, Tables};

fn class(members: &[&str]) -> HomoglyphData {
    HomoglyphData {
        data: members.iter().map(|m| m.to_string()).collect(),
    }
}

fn strings(members: &[&str]) -> Vec<String> {
    members.iter().map(|m| m.to_string()).collect()
}

/// A small homoglyph table with the classes the cases below look up.
fn homoglyph_table() -> Vec<HomoglyphData> {
    vec![
        class(&["a", "а", "ａ"]),
        class(&["女", "⼥", "\u{2E9B}"]),
        class(&["ハ", "八", "ﾊ"]),
        class(&["゛", "ﾞ"]),
        class(&["゜", "ﾟ"]),
    ]
}

fn kana_table() -> Vec<HomoglyphData> {
    vec![class(&["は", "ハ"]), class(&["ぱ", "パ"])]
}

fn width_table() -> Vec<HomoglyphData> {
    vec![class(&["ハ", "ﾊ"]), class(&["パ", "ﾊﾟ"])]
}

fn tables() -> Tables {
    Tables {
        homoglyph: homoglyph_table(),
        kana: kana_table(),
        width: width_table(),
    }
}

fn sorted(mut v: Vec<String>) -> Vec<String> {
    v.sort();
    v
}

#[test]
fn tests_plane_contains_hmg_text() {
    let data = contains_hmg_text(&homoglyph_table(), "女".to_string());
    println!("{:?}", data);
    assert_eq!(data.len(), 3);
}

#[test]
fn tests_dakuon1_contains_hmg_text() {
    let table = homoglyph_table();
    let dakuten1 = contains_hmg_text(&table, "は゛".to_string());
    let dakuten2 = contains_hmg_text(&table, "ハ゜".to_string());
    println!("{:?}", dakuten1);
    println!("{:?}", dakuten2);
    assert_eq!(dakuten1.len(), 2);
    assert_eq!(dakuten2.len(), 6);
}

#[test]
fn cluster_recombines_in_character_order() {
    let r = contains_hmg_text(&homoglyph_table(), "ハ゜".to_string());
    assert_eq!(r, strings(&["ハ゜", "ハﾟ", "八゜", "八ﾟ", "ﾊ゜", "ﾊﾟ"]));
}

#[test]
fn lookup_miss_keeps_character() {
    let r = contains_hmg_text(&homoglyph_table(), "z".to_string());
    assert_eq!(r, strings(&["z"]));
}

#[test]
fn first_class_wins() {
    let table = vec![class(&["x", "y"]), class(&["y", "z"])];
    assert_eq!(contains_hmg_text(&table, "y".to_string()), strings(&["x", "y"]));
}

#[test]
fn latin_a_literal_and_regex() {
    let p = Homoglyphs::new().get_pattern(&tables(), "a").unwrap();
    let list = generate_pattern_list(p.clone(), 100).unwrap();
    assert_eq!(sorted(list), sorted(strings(&["a", "а", "ａ"])));
    assert_eq!(generate_pattern_regex(vec![strings(&["a", "а", "ａ"])]), "(a|а|ａ)");
    let re = generate_pattern_regex(p);
    assert!(re.starts_with('(') && re.ends_with(')'));
    assert_eq!(re.chars().filter(|c| *c == '|').count(), 2);
    for m in ["a", "а", "ａ"] {
        assert!(re.contains(m));
    }
}

#[test]
fn flanked_alternation_regex() {
    let p = vec![strings(&["x"]), strings(&["a", "b"]), strings(&["y"])];
    assert_eq!(generate_pattern_regex(p), "x(a|b)y");
}

#[test]
fn regex_of_empty_and_single_units() {
    assert_eq!(generate_pattern_regex(vec![]), "");
    assert_eq!(generate_pattern_regex(vec![strings(&["ab"]), vec![]]), "ab");
}

#[test]
fn product_count_is_product_of_sizes() {
    let p = vec![strings(&["a"]), strings(&["b", "c"]), strings(&["d", "e", "f"])];
    let list = generate_pattern_list(p.clone(), 6).unwrap();
    assert_eq!(list.len(), 6);
    assert_eq!(list, strings(&["abd", "abe", "abf", "acd", "ace", "acf"]));
    assert_eq!(get_cartesian_product(&p), list);
}

#[test]
fn product_over_cap_fails_closed() {
    let p = vec![strings(&["a"]), strings(&["b", "c"]), strings(&["d", "e", "f"])];
    assert_eq!(generate_pattern_list(p, 5), Err(PatternError::ResourceExhausted));
}

#[test]
fn product_with_empty_unit_is_empty() {
    let p = vec![strings(&["a", "b"]), vec![], strings(&["c"])];
    assert_eq!(generate_pattern_list(p, 0), Ok(vec![]));
}

#[test]
fn product_of_no_units_is_empty_string() {
    assert_eq!(get_cartesian_product(&vec![]), strings(&[""]));
    assert_eq!(generate_pattern_list(vec![], 1), Ok(strings(&[""])));
    assert_eq!(generate_pattern_list(vec![], 0), Err(PatternError::ResourceExhausted));
}

#[test]
fn escaped_unit_stays_single() {
    let p = Homoglyphs::new().get_pattern(&tables(), "\\a\\\\").unwrap();
    assert_eq!(p, vec![strings(&["a"]), strings(&["\\\\"])]);
    assert_eq!(generate_pattern_regex(p), "a\\\\");
}

#[test]
fn escaped_control_character_rendering() {
    let p = Homoglyphs::new().get_pattern(&tables(), "\\\t").unwrap();
    assert_eq!(p, vec![strings(&["\\t"])]);
}

#[test]
fn trailing_backslash_is_malformed() {
    let r = Homoglyphs::new().get_pattern(&tables(), "ab\\");
    assert_eq!(r, Err(PatternError::MalformedInput));
}

#[test]
fn literal_text_escapes_meta_characters() {
    let p = Homoglyphs::new().is_literal(true).get_pattern(&tables(), "a.b\\").unwrap();
    assert_eq!(p.len(), 4);
    assert_eq!(p[1], strings(&["."]));
    assert_eq!(p[2], strings(&["b"]));
    assert_eq!(p[3], strings(&["\\\\"]));
    assert_eq!(sorted(p[0].clone()), sorted(strings(&["a", "а", "ａ"])));
}

#[test]
fn kana_and_width_passes() {
    let p = Homoglyphs::new()
        .with_japanese_kana(true)
        .with_cjk_width(true)
        .get_pattern(&tables(), "は")
        .unwrap();
    assert_eq!(sorted(p[0].clone()), sorted(strings(&["は", "ハ", "ﾊ", "八"])));
}

#[test]
fn width_cluster_resolved_per_character() {
    let p = Homoglyphs::new().with_cjk_width(true).get_pattern(&tables(), "パ").unwrap();
    let expected = strings(&["パ", "ﾊﾟ", "ﾊ゜", "ハﾟ", "ハ゜", "八ﾟ", "八゜"]);
    assert_eq!(sorted(p[0].clone()), sorted(expected));
}

#[test]
fn kana_pass_on_units() {
    let units = vec![SplitChar::Plain(strings(&["は"])), SplitChar::Escaped('x')];
    let r = get_jp_splitchar(SplitType::Kana, &tables(), units);
    assert_eq!(r.len(), 2);
    match &r[0] {
        SplitChar::Plain(v) => assert_eq!(sorted(v.clone()), sorted(strings(&["は", "ハ"]))),
        SplitChar::Escaped(_) => panic!("plain unit became escaped"),
    }
    assert!(matches!(r[1], SplitChar::Escaped('x')));
}

#[test]
fn kana_third_pass_adds_nothing() {
    let t = tables();
    let units = vec![SplitChar::Plain(strings(&["ぱ"]))];
    let units = get_jp_splitchar(SplitType::Kana, &t, units);
    let units = get_jp_splitchar(SplitType::HalfFullWidth, &t, units);
    let units = get_jp_splitchar(SplitType::Kana, &t, units);
    let before = match &units[0] {
        SplitChar::Plain(v) => sorted(v.clone()),
        SplitChar::Escaped(_) => panic!("plain unit became escaped"),
    };
    assert_eq!(before, sorted(strings(&["ぱ", "パ", "ﾊﾟ"])));
    let again = get_jp_splitchar(SplitType::Kana, &t, units);
    match &again[0] {
        SplitChar::Plain(v) => assert_eq!(sorted(v.clone()), before),
        SplitChar::Escaped(_) => panic!("plain unit became escaped"),
    }
}

#[test]
fn no_duplicates_in_units() {
    let p = Homoglyphs::new()
        .with_japanese_kana(true)
        .with_cjk_width(true)
        .get_pattern(&tables(), "はパa")
        .unwrap();
    for unit in p {
        let mut u = unit.clone();
        u.sort();
        u.dedup();
        assert_eq!(u.len(), unit.len());
    }
}

#[test]
fn config_builders_set_fields() {
    let mut c = Config::new();
    c.max_matches(3).only_matching(true);
    let built = c.build();
    assert_eq!(built.max_matches, Some(3));
    assert!(built.only_matching);
    assert_eq!(ColorMode::default(), ColorMode::Auto);
}

#[test]
fn bytes_must_be_utf8() {
    let r = Homoglyphs::new().get_pattern_from_bytes(&tables(), &[0x61, 0xff]);
    assert_eq!(r, Err(PatternError::InvalidText));
}

#[test]
fn utf8_bytes_expand_like_text() {
    let t = tables();
    let from_bytes = Homoglyphs::new().get_pattern_from_bytes(&t, "x\\.".as_bytes());
    assert_eq!(from_bytes, Ok(vec![strings(&["x"]), strings(&["."])]));
    let from_text = Homoglyphs::new().get_pattern(&t, "x\\.");
    assert_eq!(from_bytes, from_text);
}
