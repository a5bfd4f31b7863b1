use nutrimatic_zh::chinese::factor::parse_factor_han;
use nutrimatic_zh::chinese::{is_han, ChineseData, ChineseDataError};

const FACTORS: &str = r#"const hanzi=`一
丨
亅
丁|一亅
木|一丨
林|木木
休|亻木|人木
𠀀|一丨
`"#;

const SPELL: &str = r#"// From cnchar
const spell = {
    "ding": "1:丁6",
    "lin": "1:林2",
    "xiu": "1:休1",
};"#;

const WORDS: &str = r#"const ws=`丁
林
森林
凡士林
黑魔
魔术
阿Ｑ`;
"#;

fn data() -> ChineseData {
    ChineseData::from_sources(FACTORS, SPELL, WORDS).unwrap()
}

fn factors(text: &str) -> Vec<char> {
    text.chars().collect()
}

#[test]
fn han_profile_uses_unicode_scalars() {
    assert!(is_han('中'));
    assert!(is_han('〇'));
    assert!(is_han('𠀀'));
    assert!(is_han('﨑'));
    assert!(!is_han('A'));
    assert!(!is_han('々'));
    assert!(!is_han('⺄'));
}

#[test]
fn parses_factor_data_without_utf16_assumptions() {
    let data = data();
    assert!(data.characters_with_component('木').unwrap().contains(&'林'));
    assert!(data.characters_with_component('人').unwrap().contains(&'休'));
    assert!(data.characters_with_component('丨').unwrap().contains(&'𠀀'));
    assert!(data.characters_with_strokes(2).unwrap().contains(&'丁'));
    assert!(data.characters_with_strokes(4).unwrap().contains(&'林'));
}

#[test]
fn factor_parser_ignores_empty_upstream_alternatives() {
    let table = parse_factor_han(&factors("const hanzi=`一\n巴|巳丨||𠃍丨一乚|\n`"))
        .ok()
        .unwrap();
    assert_eq!(table.ways('巴').unwrap().len(), 2);
    assert!(parse_factor_han(&factors("const hanzi=`一\n巴|\n`")).is_err());
    assert!(parse_factor_han(&factors("const hanzi=`一\n巴||\n`")).is_err());
}

#[test]
fn decodes_cnchar_tone_codes_modulo_five() {
    let data = data();
    assert!(data.characters_with_pinyin("ding1").unwrap().contains(&'丁'));
    assert!(data.characters_with_pinyin("*in").unwrap().contains(&'林'));
    assert!(!data.characters_with_pinyin("ding4").unwrap().contains(&'丁'));
}

#[test]
fn pinyin_glob_is_safe_and_reports_errors() {
    let data = data();
    assert!(data.characters_with_pinyin("[").is_err());
    assert!(data.characters_with_pinyin("a**").is_err());
    assert!(data.characters_with_pinyin("lin9").is_err());
}

#[test]
fn word_templates_have_one_han_slot() {
    let data = data();
    assert_eq!(data.characters_with_word_template(".士林").unwrap().as_slice(), ['凡']);
    assert_eq!(data.characters_with_word_template("黑.").unwrap().as_slice(), ['魔']);
    assert!(data.characters_with_word_template("黑魔").is_err());
    assert!(data.characters_with_word_template("..术").is_err());
}

#[test]
fn han_ranges_have_exact_ends() {
    for (inside, outside) in [
        ('\u{3400}', '\u{33FF}'),
        ('\u{4DBF}', '\u{4DC0}'),
        ('\u{4E00}', '\u{4DFF}'),
        ('\u{9FFF}', '\u{A000}'),
        ('\u{FA0E}', '\u{FA10}'),
        ('\u{3347F}', '\u{33480}'),
        ('\u{20000}', '\u{1FFFF}'),
    ] {
        assert!(is_han(inside), "{inside:?}");
        assert!(!is_han(outside), "{outside:?}");
    }
}

#[test]
fn component_sets_meet() {
    let data = data();
    let both = data.characters_with_components(&['一', '亅']);
    assert_eq!(both.as_slice(), ['丁']);
    let none = data.characters_with_components(&['木', '亅']);
    assert!(none.is_empty());
    assert!(data.characters_with_component('龙').is_none());
    assert!(data.characters_with_strokes(99).is_none());
}

#[test]
fn components_of_components_count() {
    let data = data();
    // 林 is made of 木, which is made of 一 and 丨.
    assert!(data.characters_with_component('丨').unwrap().contains(&'林'));
    assert!(data.characters_with_component('林').unwrap().contains(&'林'));
}

#[test]
fn counts_tell_how_much_is_known() {
    let data = data();
    assert_eq!(data.word_count(), 6);
    assert!(data.component_class_count() > 0);
    assert!(data.stroke_class_count() > 0);
    assert!(data.pinyin_class_count() > 0);
    let empty = ChineseData::default();
    assert_eq!(empty.word_count(), 0);
    assert_eq!(empty.component_class_count(), 0);
}

#[test]
fn bad_sources_name_the_file_and_the_line() {
    let ChineseDataError::Parse { source_name, line, .. } =
        ChineseData::from_sources("const hanzi=`一\n巴||\n`", SPELL, WORDS)
            .err()
            .unwrap();
    assert_eq!(source_name, "factorHan.js");
    assert_eq!(line, 2);
    let error = ChineseData::from_sources("no template", SPELL, WORDS).err().unwrap();
    assert!(error.to_text().contains("factorHan.js"));
    assert!(ChineseData::from_sources(FACTORS, "const spell = 1", WORDS).is_err());
    assert!(ChineseData::from_sources(FACTORS, SPELL, "no template").is_err());
}

#[test]
fn pinyin_errors_read_as_text() {
    let error = data().characters_with_pinyin("lin9").err().unwrap();
    assert!(!error.message.is_empty());
    assert!(error.to_text().contains(&error.message));
    let error = data().characters_with_word_template("黑魔").err().unwrap();
    assert!(error.to_text().contains(&error.message));
}

#[test]
fn characters_that_come_to_themselves_are_refused() {
    let error = ChineseData::from_sources("const hanzi=`一|人二\n二|人三\n三|人二\n人\n`", SPELL, WORDS)
        .err()
        .unwrap();
    assert_eq!(error.to_text(), "factorHan.js：拆字数据存在环：二");
    let error = ChineseData::from_sources("const hanzi=`三|二\n二|三\n`", SPELL, WORDS)
        .err()
        .unwrap();
    assert_eq!(error.to_text(), "factorHan.js：拆字数据存在环：三");
}

#[test]
fn characters_with_too_many_strokes_are_refused() {
    let name = |k: u32| char::from_u32(0x4e00 + k).unwrap();
    let mut source = String::from("const hanzi=`");
    source.push(name(0));
    for k in 1..=15 {
        source.push('\n');
        source.push(name(k));
        source.push('|');
        source.push(name(k - 1));
        source.push(name(k - 1));
    }
    let whole = format!("{}\n`", source);
    let data = ChineseData::from_sources(&whole, SPELL, WORDS).unwrap();
    assert!(data.characters_with_strokes(32768).unwrap().contains(&name(15)));
    let more = format!("{}\n{}|{}{}\n`", source, name(16), name(15), name(15));
    let error = ChineseData::from_sources(&more, SPELL, WORDS).err().unwrap();
    assert_eq!(
        error.to_text(),
        format!("factorHan.js：{} 的笔画计数溢出", name(16))
    );
}

#[test]
fn components_are_transitive() {
    let data = data();
    let holds = |part: char, whole: char| {
        data.characters_with_component(part)
            .map_or(false, |found| found.contains(&whole))
    };
    let heads = ['一', '丨', '亅', '丁', '木', '林', '休', '𠀀'];
    for a in heads {
        assert!(holds(a, a));
        for b in heads {
            for c in heads {
                assert!(!(holds(b, a) && holds(c, b)) || holds(c, a));
            }
        }
        let counts: Vec<u16> = (0..20)
            .filter(|&n| data.characters_with_strokes(n).map_or(false, |found| found.contains(&a)))
            .collect();
        assert_eq!(counts.len(), 1, "{a}");
    }
    assert!(!holds('亻', '亻'));
    assert!(holds('亻', '休'));
}

#[test]
fn no_tone_means_every_tone() {
    let spell = "const spell = {\n \"lin\": \"1:林2木6丁5\",\n \"xin\": \"1:休1\",\n};";
    let data = ChineseData::from_sources(FACTORS, spell, WORDS).unwrap();
    for pattern in ["lin", "*in", "l*"] {
        let whole = data.characters_with_pinyin(pattern).unwrap();
        for c in ['林', '木', '丁', '休', '一'] {
            let by_tone = (0..=4).any(|t| {
                data.characters_with_pinyin(&format!("{pattern}{t}"))
                    .unwrap()
                    .contains(&c)
            });
            assert_eq!(whole.contains(&c), by_tone, "{pattern} {c}");
        }
    }
    assert!(data.characters_with_pinyin("lin").unwrap().contains(&'木'));
    assert!(!data.characters_with_pinyin("lin2").unwrap().contains(&'木'));
    assert!(data.characters_with_pinyin("lin1").unwrap().contains(&'木'));
}
