use nutrimatic_zh::chinese::ChineseData;
use nutrimatic_zh::query::{CharRange, CharacterClass, Expr, Program};

const FACTORS: &str = r#"const hanzi=`一
丨
亅
丁|一亅
木|一丨
林|木木
休|亻木|人木
`"#;

const SPELL: &str = r#"const spell = {
    "ding": "1:丁6",
    "lin": "1:林2",
    "xiu": "1:休1",
};"#;

const WORDS: &str = r#"const ws=`丁
林
森林
凡士林
黑魔
魔术`;
"#;

fn data() -> ChineseData {
    ChineseData::from_sources(FACTORS, SPELL, WORDS).unwrap()
}

#[test]
fn literals_wildcards_and_derivatives_use_scalars() {
    let program = Program::parse("中..", &data()).unwrap();
    assert!(program.matches("中国人"));
    assert!(!program.matches("中国"));
    let state = program.derive_approx(program.root(), '中');
    assert!(!program.is_dead(&state));
}

#[test]
fn character_classes_alternation_and_intersection_work() {
    assert!(Program::parse("[中人]", &data()).unwrap().matches("中"));
    assert!(!Program::parse("[^中]", &data()).unwrap().matches("中"));
    assert!(Program::parse("(中|国)&中", &data()).unwrap().matches("中"));
    assert!(!Program::parse("(中|国)&中", &data()).unwrap().matches("国"));
}

#[test]
fn removed_aliases_have_migration_errors() {
    let hash = Program::parse("#", &data()).unwrap_err();
    assert!(hash.message.contains("请写 ."));
    let quote = Program::parse("\"中国\"", &data()).unwrap_err();
    assert!(quote.message.contains("使用 (...)"));
    for old_property in ["{plin2}", "{b氵青}", "{h7-9}", "{tA}", "{z#士林}"] {
        let error = Program::parse(old_property, &data()).unwrap_err();
        assert!(error.message.contains("@p(...)"));
    }
}

#[test]
fn quantifiers_keep_standard_postfix_semantics() {
    let program = Program::parse("中{2,3}", &data()).unwrap();
    assert!(program.matches("中中"));
    assert!(program.matches("中中中"));
    assert!(!program.matches("中"));
    assert!(Program::parse("中+", &data()).unwrap().matches("中中"));
    assert!(Program::parse("中?", &data()).unwrap().matches(""));
    let bare_star = Program::parse("*", &data()).unwrap_err();
    assert!(bare_star.message.contains("至少一个请写 .+"));
}

#[test]
fn anagram_derivative_matches_permutations() {
    let program = Program::parse("<中国>", &data()).unwrap();
    assert!(program.matches("中国"));
    assert!(program.matches("国中"));
    assert!(!program.matches("中中"));
}

#[test]
fn captures_are_approximate_during_search_and_exact_at_the_end() {
    let program = Program::parse("@t(A)@t(A)", &data()).unwrap();
    assert!(program.matches_approx("人民"));
    assert!(program.matches("人人"));
    assert!(!program.matches("人民"));
}

#[test]
fn metadata_features_become_explicit_classes() {
    let data = data();
    assert!(Program::parse("@b(木)", &data).unwrap().matches("林"));
    assert!(Program::parse("@h(3-4)", &data).unwrap().matches("林"));
    assert!(Program::parse("@p(*in2)", &data).unwrap().matches("林"));
    assert!(Program::parse("@p(ding1)", &data).unwrap().matches("丁"));
}

#[test]
fn z_property_resolves_one_dictionary_slot() {
    let data = data();
    assert!(Program::parse("@z(.士林)", &data).unwrap().matches("凡"));
    assert!(Program::parse("@z(黑.)&@z(.术)", &data).unwrap().matches("魔"));
    assert!(Program::parse("@z(..术)", &data).is_err());
}

#[test]
fn malformed_queries_report_errors() {
    assert!(Program::parse("[中", &data()).is_err());
    assert!(Program::parse("(中国", &data()).is_err());
    assert!(Program::parse("abc", &data()).is_err());
    assert!(Program::parse("", &data()).is_err());
}

#[test]
fn query_errors_count_bytes() {
    let error = Program::parse("中国x", &data()).unwrap_err();
    assert_eq!(error.offset, 6);
    assert!(error.to_text().starts_with("查询字节偏移 6："));
    // The message shows the character in its debug form.
    assert!(error.message.contains("'x'"), "{}", error.message);
}

#[test]
fn classes_and_their_ranges() {
    let class = CharacterClass::from_chars(vec!['丙', '一', '丁', '一']);
    assert!(class.contains('丁'));
    assert!(!class.contains('七'));
    assert_eq!(
        class.ranges().unwrap(),
        [
            CharRange { start: '一', end: '丁' },
            CharRange { start: '丙', end: '丙' },
        ]
    );
    assert!(CharacterClass::han().contains('中'));
    assert!(!CharacterClass::han().contains('a'));
    assert!(CharacterClass::han().ranges().is_none());
    assert!(CharacterClass::from_chars(Vec::new()).is_empty());
    let others = CharacterClass::from_ranges(vec![CharRange { start: '一', end: '丁' }], true);
    assert!(!others.contains('丁'));
    assert!(others.contains('中'));
    assert!(!others.contains('a'));
}

#[test]
fn constructors_give_normal_forms() {
    let a = || Expr::Class(1);
    let b = || Expr::Class(2);
    assert_eq!(Expr::alt(vec![b(), a(), b()]), Expr::alt(vec![a(), b()]));
    assert_eq!(Expr::alt(vec![a(), Expr::Empty]), a());
    assert_eq!(Expr::concat(vec![Expr::Epsilon, a()]), a());
    assert_eq!(Expr::concat(vec![a(), Expr::Empty]), Expr::Empty);
    assert_eq!(Expr::star(Expr::star(a())), Expr::star(a()));
    assert_eq!(Expr::star(Expr::Empty), Expr::Epsilon);
    assert_eq!(Expr::intersect(vec![a(), a()]), a());
    assert!(Expr::star(a()).nullable());
    assert!(Expr::intersect(vec![a(), Expr::Empty]).is_dead());
}

#[test]
fn anagrams_use_each_part_once() {
    let program = Program::parse("<(中国)人人>", &data()).unwrap();
    for text in ["中国人人", "人中国人", "人人中国"] {
        assert!(program.matches(text), "{text}");
    }
    for text in ["中人国人", "中国人", "人人人人"] {
        assert!(!program.matches(text), "{text}");
    }
}

#[test]
fn every_match_is_an_approximate_match_of_han() {
    let program = Program::parse("@t(A).*@t(A)", &data()).unwrap();
    for text in ["人人", "人民人", "中国人"] {
        if program.matches(text) {
            assert!(program.matches_approx(text));
        }
    }
    assert!(program.matches("人民人"));
    assert!(!program.matches("中国人"));
    assert!(!Program::parse(".", &data()).unwrap().matches("a"));
}

#[test]
fn without_groups_matching_is_exact() {
    let program = Program::parse("(中|国)*人", &data()).unwrap();
    for text in ["人", "中国人", "国国国人", "中国", "民人"] {
        assert_eq!(program.matches(text), program.matches_approx(text), "{text}");
    }
}

#[test]
fn a_derivative_matches_what_follows() {
    let program = Program::parse("中(国|华)人?", &data()).unwrap();
    let after = program.derive_approx(program.root(), '中');
    let after = program.derive_approx(&after, '国');
    assert!(program.nullable(&after));
    let dead = program.derive_approx(program.root(), '人');
    assert!(program.is_dead(&dead));
}

#[test]
fn properties_over_empty_data_find_nothing() {
    for query in ["@b(木)", "@h(4)", "@p(lin2)", "@z(森.)"] {
        let program = Program::parse(query, &ChineseData::default()).unwrap();
        assert!(!program.matches("林"), "{query}");
    }
}

#[test]
fn repeats_have_bounds() {
    assert!(Program::parse("中{3,2}", &data()).is_err());
    let exact = Program::parse("中{3}", &data()).unwrap();
    assert!(exact.matches("中中中"));
    assert!(!exact.matches("中中"));
    let open = Program::parse("中{2,}", &data()).unwrap();
    assert!(open.matches("中中中中"));
    assert!(!open.matches("中"));
}

#[test]
fn a_literal_query_matches_itself() {
    for text in ["中", "春风春", "𠮷〇中中中"] {
        let program = Program::parse(text, &data()).unwrap();
        assert!(program.matches(text));
        for other in ["", "春", "春风", "春风春春", "风春春"] {
            assert_eq!(program.matches(other), other == text);
        }
    }
}

#[test]
fn repetitions_count_their_parts() {
    let program = Program::parse("(春|秋风){2,3}", &data()).unwrap();
    for (text, expected) in [
        ("春", false),
        ("春春", true),
        ("春秋风", true),
        ("秋风秋风春", true),
        ("春春春春", false),
    ] {
        assert_eq!(program.matches(text), expected);
    }
    let program = Program::parse("(春秋)+", &data()).unwrap();
    assert!(!program.matches(""));
    assert!(program.matches("春秋春秋"));
    let program = Program::parse("(春秋)?", &data()).unwrap();
    assert!(program.matches(""));
    assert!(!program.matches("春秋春秋"));
}

#[test]
fn concatenations_associate() {
    let part = |id: u32| Expr::Class(id);
    let a = || vec![part(1), Expr::star(part(2))];
    let b = || vec![Expr::alt(vec![part(3), part(4)]), part(5)];
    let mut all = a();
    all.extend(b());
    assert_eq!(Expr::concat(vec![Expr::concat(a()), Expr::concat(b())]), Expr::concat(all));
    assert_eq!(Expr::concat(vec![]), Expr::Epsilon);
    assert_eq!(Expr::concat(vec![part(1), Expr::Epsilon, part(2)]), Expr::concat(vec![part(1), part(2)]));
}

#[test]
fn the_order_of_parts_matters_only_where_it_should() {
    let part = |id: u32| Expr::Class(id);
    let v = || vec![part(3), part(1), part(2)];
    let w = || vec![part(1), part(2), part(3)];
    assert_eq!(Expr::alt(v()), Expr::alt(w()));
    assert_eq!(Expr::intersect(v()), Expr::intersect(w()));
    assert_eq!(Expr::anagram(v()), Expr::anagram(w()));
    assert_ne!(Expr::concat(v()), Expr::concat(w()));
    let mut twice = v();
    twice.extend(v());
    assert_eq!(Expr::alt(twice.clone()), Expr::alt(v()));
    assert_eq!(Expr::intersect(twice.clone()), Expr::intersect(v()));
    assert_ne!(Expr::anagram(twice), Expr::anagram(v()));
    assert_eq!(Expr::alt(vec![]), Expr::Empty);
    assert_eq!(Expr::alt(vec![Expr::Empty, part(1)]), part(1));
    assert_eq!(
        Expr::alt(v()),
        Expr::Alt(vec![part(1), part(2), part(3)])
    );
    assert_eq!(
        Expr::intersect(vec![Expr::Epsilon, part(0)]),
        Expr::Intersect(vec![Expr::Epsilon, part(0)])
    );
    assert_eq!(
        Expr::anagram(vec![part(0), Expr::Epsilon, part(0)]),
        Expr::Anagram(vec![part(0), part(0)])
    );
}

#[test]
fn constructors_match_nothing_by_their_parts() {
    let part = || Expr::Class(0);
    let option = || Expr::alt(vec![Expr::Epsilon, Expr::Class(0)]);
    assert!(Expr::concat(vec![option(), option()]).nullable());
    assert!(!Expr::concat(vec![option(), part()]).nullable());
    assert!(Expr::intersect(vec![option(), Expr::Epsilon]).nullable());
    assert!(!Expr::intersect(vec![option(), part()]).nullable());
    assert!(Expr::anagram(vec![option(), option()]).nullable());
    assert!(!Expr::anagram(vec![option(), part()]).nullable());
    assert!(!Expr::alt(vec![part(), Expr::Class(1)]).nullable());
    assert!(!Expr::Capture { class: 0, group: 0 }.nullable());
    assert!(!Expr::Empty.nullable());
}

#[test]
fn anagram_queries_accept_permutations() {
    let program = Program::parse("<天地天>", &data()).unwrap();
    for (text, expected) in [
        ("天地天", true),
        ("天天地", true),
        ("地天天", true),
        ("天地", false),
        ("天地地", false),
        ("天地天天", false),
        ("", false),
    ] {
        assert_eq!(program.matches(text), expected, "{text}");
    }
}

#[test]
fn dots_accept_by_length() {
    for text in ["", "春", "春秋", "春秋冬", "a", "春a"] {
        let n = text.chars().count();
        let is_han = !text.contains('a');
        let accepts = |query: &str| Program::parse(query, &data()).unwrap().matches(text);
        assert_eq!(accepts(".*"), is_han);
        assert_eq!(accepts(".+"), is_han && n >= 1);
        assert_eq!(accepts(".?"), is_han && n <= 1);
        assert_eq!(accepts(".{1,2}"), is_han && (1..=2).contains(&n));
        assert_eq!(accepts(".{0,0}"), is_han && n == 0);
        assert_eq!(accepts(".{2,}"), is_han && n >= 2);
    }
}

#[test]
fn property_queries_accept_one_character() {
    let data = data();
    for (query, accepted) in [
        ("@b(木)", vec!["木", "林", "休"]),
        ("@h(2)", vec!["丁", "木"]),
        ("@h(2-4)", vec!["丁", "木", "林", "休"]),
        ("@p(lin2)", vec!["林"]),
        ("@p(*in)", vec!["林"]),
        ("@z(凡士.)", vec!["林"]),
    ] {
        let program = Program::parse(query, &data).unwrap();
        for text in ["丁", "木", "林", "休", "一", "林林", ""] {
            assert_eq!(program.matches(text), accepted.contains(&text), "{query} {text}");
        }
    }
}
