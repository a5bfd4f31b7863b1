use nutrimatic_zh::corpus::{
    is_poetry_source_path, is_wikipedia_shard, poetry_collections, prepare_source,
    prepare_source_with_progress, process_file, select_source, PathKind, PrepareError,
    PrepareReport, Preparer, ProgressReader, Selection, SourceFile, SourceKind, SourceReader,
    WeightedRecord,
};
use std::collections::BTreeMap;

fn fixture(kind: SourceKind, input: &str) -> (PrepareReport, Vec<WeightedRecord>) {
    fixture_bytes(kind, input.as_bytes())
}

fn fixture_bytes(kind: SourceKind, input: &[u8]) -> (PrepareReport, Vec<WeightedRecord>) {
    let mut preparer = Preparer::new(kind);
    process_file(kind, "fixture", input, &mut preparer);
    preparer.into_parts()
}

fn has(records: &[WeightedRecord], text: &str, weight: u64) -> bool {
    records
        .iter()
        .any(|record| record.text == text && record.weight == weight)
}

#[test]
fn progress_reader_reports_file_and_overall_bytes() {
    let mut events = Vec::new();
    let mut reader = ProgressReader {
        source: "wiki_00".to_owned(),
        file_index: 2,
        file_count: 3,
        file_bytes_read: 0,
        file_bytes_total: 6,
        completed_bytes: 4,
        total_bytes: 10,
    };
    let input = "中文".as_bytes();
    events.extend(reader.read(input.len()));
    events.extend(reader.read(0));
    let last = events.last().unwrap();
    assert_eq!(last.source, "wiki_00");
    assert_eq!(last.file_index, 2);
    assert_eq!(last.file_count, 3);
    assert_eq!(last.file_bytes_read, 6);
    assert_eq!(last.bytes_read, 10);
    assert_eq!(last.bytes_total, 10);
    assert_eq!(events.len(), 1);
}

#[test]
fn prepares_wordlist_template_with_weight_twenty() {
    let (_, records) = fixture(SourceKind::Wordlist, "const ws=`中国\n𠀀〇\n`;\n");
    assert!(has(&records, "中国", 20));
    assert!(has(&records, "𠀀〇", 20));
}

#[test]
fn prepares_baidu_schema_with_declared_weights() {
    let input = concat_lines(&[
        r#"{"title":"中国A文学","summary":"摘要","sections":[{"title":"历史","content":"正文"}],"tags":["标签"],"url":"ignored"}"#,
        "\n",
    ]);
    let (_, records) = fixture(SourceKind::BaiduBaike, &input);
    assert!(has(&records, "中国", 10));
    assert!(has(&records, "文学", 10));
    assert!(has(&records, "摘要", 1));
    assert!(has(&records, "历史", 5));
    assert!(has(&records, "正文", 1));
    assert!(has(&records, "标签", 5));
}

fn concat_lines(parts: &[&str]) -> String {
    parts.concat()
}

#[test]
fn prepares_wikipedia_jsonl_title_and_text_only() {
    let input = concat_lines(&[
        r#"{"id":"1","url":"https://example","title":"数学","text":"数学\nEnglish分隔中文[方括号保留]"}"#,
        "\n",
    ]);
    let (_, records) = fixture(SourceKind::Wikipedia, &input);
    assert!(has(&records, "数学", 10));
    assert!(has(&records, "数学", 1));
    assert!(has(&records, "分隔中文", 1));
    assert!(has(&records, "方括号保留", 1));
    assert!(!records.iter().any(|record| record.text.contains("例")));
}

#[test]
fn prepares_only_namespace_zero_moegirl_pages_and_strips_wiki_markup() {
    let input = concat_lines(&[
        "<mediawiki><page><title>条目</title><ns>0</ns><revision><text>",
        "正文{{模板|噪音}}[[中国|中华]]&lt;ref&gt;注释&lt;/ref&gt;",
        "</text></revision></page>",
        "<page><title>讨论页</title><ns>1</ns><revision><text>不要</text></revision></page>",
        "</mediawiki>\n",
    ]);
    let (_, records) = fixture(SourceKind::Moegirl, &input);
    assert!(has(&records, "条目", 10));
    assert!(has(&records, "正文", 1));
    assert!(has(&records, "中华", 1));
    assert!(!records.iter().any(|record| {
        matches!(
            record.text.as_str(),
            "模板" | "噪音" | "注释" | "讨论页" | "不要"
        )
    }));
}

#[test]
fn prepares_multiline_bilibili_message_and_removes_reply_annotations() {
    let input = concat_lines(&[
        "message,time,timestamp\r\n",
        "\"回复 @张三：你好[笑哭]\r\n世界\",2023-01-01,1\r\n",
    ]);
    let (_, records) = fixture(SourceKind::Bilibili, &input);
    assert!(has(&records, "你好", 1));
    assert!(has(&records, "世界", 1));
    assert!(!records
        .iter()
        .any(|record| { matches!(record.text.as_str(), "回复" | "张三" | "笑哭") }));
}

#[test]
fn prepares_tieba_chinese_and_compatibility_fields() {
    let input = r#"[
            {"标题":"主题","楼主内容":"正文","回复列表":[{"内容":"回复"}]},
            {"title":"兼容标题","content":"兼容内容"}
        ]"#;
    let (_, records) = fixture(SourceKind::Tieba, input);
    assert!(has(&records, "主题", 5));
    assert!(has(&records, "正文", 1));
    assert!(has(&records, "回复", 1));
    assert!(has(&records, "兼容标题", 5));
    assert!(has(&records, "兼容内容", 1));
}

#[test]
fn prepares_only_user_and_assistant_chatml_turns() {
    let input = concat_lines(&[
        r#"{"text":"<|im_start|>system\n系统说明<|im_end|>\n<|im_start|>user\n[中文]问题<|im_end|>\n<|im_start|>assistant\n回答<|im_end|>"}"#,
        "\n",
    ]);
    let (_, records) = fixture(SourceKind::Train, &input);
    assert!(has(&records, "中文", 1));
    assert!(has(&records, "问题", 1));
    assert!(has(&records, "回答", 1));
    assert!(!records.iter().any(|record| record.text == "系统说明"));
}

#[test]
fn prepares_common_poetry_schemas() {
    let input = r#"[
            {"author":"太宗皇帝","title":"帝京篇","paragraphs":["秦川雄帝宅，函谷壮皇居。"]},
            {"author":"和岘","rhythmic":"导引","paragraphs":["气和玉烛，睿化著鸿明。"]},
            {"title":"关雎","chapter":"国风","section":"周南","content":["关关雎鸠，在河之洲。"]},
            {"title":"长相思","para":["山一程，水一程。"]},
            {"content":"读经宜冬，其神专也。","comment":["后人评论不要收录。"]}
        ]"#;
    let (_, records) = fixture(SourceKind::Poetry, input);
    assert!(has(&records, "帝京篇", 20));
    assert!(has(&records, "秦川雄帝宅", 10));
    assert!(has(&records, "导引", 20));
    assert!(has(&records, "气和玉烛", 10));
    assert!(has(&records, "关雎", 20));
    assert!(has(&records, "国风", 20));
    assert!(has(&records, "周南", 20));
    assert!(has(&records, "关关雎鸠", 10));
    assert!(has(&records, "山一程", 10));
    assert!(has(&records, "读经宜冬", 10));
    assert!(!records.iter().any(|record| record.text.contains("后人评论")));
}

#[test]
fn prepares_nested_mengxue_content() {
    let input = r#"{
            "title":"古文观止",
            "abstract":["现代内容简介不要收录。"],
            "content":[{"title":"卷一","content":[
                {"chapter":"郑伯克段于鄢","paragraphs":["初，郑武公娶于申。"]}
            ]}]
        }"#;
    let (_, records) = fixture(SourceKind::Poetry, input);
    assert!(has(&records, "郑伯克段于鄢", 20));
    assert!(has(&records, "郑武公娶于申", 10));
    assert!(!records.iter().any(|record| record.text.contains("现代内容简介")));
}

#[test]
fn includes_ancient_prefaces_and_biographies_but_not_modern_guides() {
    let input = r#"[
            {"title":"文字蒙求","preface":["雪堂谓筠曰，人之不识字也。"],"abstract":"现代简介。"},
            {"title":"帝京篇","biography":"帝姓李氏，讳世民。","paragraphs":["秦川雄帝宅。"],
             "notes":["现代注释。"],"prologue":"现代赏析。"}
        ]"#;
    let (_, records) = fixture(SourceKind::Poetry, input);
    assert!(has(&records, "雪堂谓筠曰", 10));
    assert!(has(&records, "帝姓李氏", 10));
    assert!(!records
        .iter()
        .any(|record| { matches!(record.text.as_str(), "现代简介" | "现代注释" | "现代赏析") }));
}

#[test]
fn deduplicates_poetry_by_han_only_full_body() {
    let input = r#"[
            {"title":"春晓","paragraphs":["春眠不觉晓，处处闻啼鸟。"]},
            {"title":"春晓","paragraphs":["春眠不觉晓；处处闻啼鸟！"]}
        ]"#;
    let (_, records) = fixture(SourceKind::Poetry, input);
    assert_eq!(
        records
            .iter()
            .filter(|record| record.text == "春眠不觉晓" && record.weight == 10)
            .count(),
        1
    );
    assert_eq!(
        records
            .iter()
            .filter(|record| record.text == "春晓" && record.weight == 20)
            .count(),
        1
    );
}

fn names(path: &[&str]) -> Vec<String> {
    path.iter().map(|name| name.to_string()).collect()
}

#[test]
fn poetry_path_filter_keeps_primary_json_only() {
    assert!(is_poetry_source_path(&names(&["全唐诗", "poet.tang.0.json"])));
    assert!(is_poetry_source_path(&names(&["御定全唐詩", "json", "001.json"])));
    assert!(!is_poetry_source_path(&names(&["全唐诗", "authors.tang.json"])));
    assert!(!is_poetry_source_path(&names(&["全唐诗", "error", "poet.tang.0.json"])));
    assert!(!is_poetry_source_path(&names(&["rank", "poet", "poet.tang.0.json"])));
}

#[test]
fn other_files_hold_no_poems() {
    assert!(!is_poetry_source_path(&names(&[])));
    assert!(!is_poetry_source_path(&names(&["宋词", "README.md"])));
    assert!(!is_poetry_source_path(&names(&["宋词", "Author.Song.json"])));
    assert!(!is_poetry_source_path(&names(&["全唐诗", "表面结构字.json"])));
    assert!(!is_poetry_source_path(&names(&["全唐诗", ".json"])));
    assert!(is_poetry_source_path(&names(&["宋词", "ci.song.0.JSON"])));
    assert_eq!(poetry_collections().len(), 14);
    for name in poetry_collections() {
        assert!(is_poetry_source_path(&names(&[name, "a.json"])));
    }
    assert!(is_wikipedia_shard("wiki_00"));
    assert!(!is_wikipedia_shard("wiki"));
}

#[test]
fn sources_have_names() {
    for (name, kind) in [
        ("words", SourceKind::Wordlist),
        ("BAIDU", SourceKind::BaiduBaike),
        ("wiki-zh", SourceKind::Wikipedia),
        ("mengniang", SourceKind::Moegirl),
        ("bili", SourceKind::Bilibili),
        ("original", SourceKind::Tieba),
        ("chatml", SourceKind::Train),
        ("poems", SourceKind::Poetry),
    ] {
        assert_eq!(SourceKind::from_name(name).unwrap(), kind);
        assert_eq!(SourceKind::from_name(kind.to_text()).unwrap(), kind);
    }
    assert_eq!(SourceKind::from_name("x").unwrap_err(), "未知语料来源：x");
}

#[test]
fn paths_must_fit_their_source() {
    assert_eq!(
        select_source(SourceKind::Train, "t", PathKind::File).unwrap(),
        Selection::Single
    );
    assert_eq!(
        select_source(SourceKind::Wikipedia, "t", PathKind::Directory).unwrap(),
        Selection::WikipediaShards
    );
    assert_eq!(
        select_source(SourceKind::Poetry, "t", PathKind::Directory).unwrap(),
        Selection::PoetryCollections
    );
    for (kind, shape, message) in [
        (
            SourceKind::Poetry,
            PathKind::File,
            "poetry 来源必须传 chinese-poetry 仓库根目录：t",
        ),
        (SourceKind::Train, PathKind::Directory, "train 来源需要常规文件：t"),
        (SourceKind::Poetry, PathKind::Other, "poetry 来源需要常规文件：t"),
    ] {
        let error = select_source(kind, "t", shape).unwrap_err();
        assert_eq!(error.to_text(), message);
    }
}

#[test]
fn bad_lines_are_reported_and_skipped() {
    let (report, records) = fixture(
        SourceKind::Wikipedia,
        "{\"title\":\"数学\",\"text\":\"好\"}\n\n{\"title\":1}\n{oops\n[]\n{\"title\":\"x\",\"text\":\"坏\n",
    );
    assert_eq!(records.len(), 2);
    assert_eq!(report.stats.physical_lines, 6);
    assert_eq!(report.stats.logical_records, 1);
    assert_eq!(report.stats.skipped_records, 4);
    assert_eq!(report.stats.parse_errors, 4);
    let messages: Vec<&str> = report
        .error_samples
        .iter()
        .map(|sample| sample.message.as_str())
        .collect();
    assert_eq!(
        messages,
        [
            "Wikipedia 记录缺少字符串 title",
            "JSON 字节 1：对象键必须是字符串",
            "Wikipedia JSONL 顶层必须是对象",
            "JSON 字节 24：字符串没有闭合",
        ]
    );
    assert_eq!(report.error_samples[0].line, 3);
    assert_eq!(report.error_samples[0].source, "fixture");
}

#[test]
fn lines_that_are_no_text_are_skipped() {
    let mut input = b"{\"text\":\"<|im_start|>user\\n\xE5\xA5\xBD<|im_end|>\"}\n".to_vec();
    input.extend_from_slice(b"\xFF\xFE\n");
    let (report, records) = fixture_bytes(SourceKind::Train, &input);
    assert!(has(&records, "好", 1));
    assert_eq!(report.stats.invalid_utf8_lines, 1);
    assert_eq!(report.error_samples[0].preview, "FF FE");
    assert_eq!(report.error_samples[0].message, "该行不是严格 UTF-8，已跳过");
    assert_eq!(report.stats.bytes_read, input.len() as u64);
}

#[test]
fn json_escapes_are_decoded() {
    let (report, records) = fixture(
        SourceKind::Train,
        "{\"text\":\"<|im_start|>user\\n\\u4e2d\\ud842\\udfb7\\/\\t文<|im_end|>\"}\n{\"text\":\"\\ud842\"}\n{\"text\":\"\\udfb7\"}\n{\"text\":\"\\u12\"}\n{\"text\":\"\\x\"}\n",
    );
    assert!(has(&records, "中𠮷", 1));
    assert!(has(&records, "文", 1));
    let messages: Vec<&str> = report
        .error_samples
        .iter()
        .map(|sample| sample.message.as_str())
        .collect();
    assert_eq!(
        messages,
        [
            "JSON 字节 14：高代理项后缺少低代理项",
            "JSON 字节 14：出现孤立低代理项",
            "JSON 字节 10：Unicode 转义含非十六进制字符",
            "JSON 字节 10：未知字符串转义",
        ]
    );
}

#[test]
fn json_numbers_follow_the_grammar() {
    let good = "{\"n\":[0,-1,2.5,1e9,1E-3,-0.5e+2,true,false,null],\"text\":\"\"}\n";
    let (report, _) = fixture(SourceKind::Train, good);
    assert_eq!(report.stats.parse_errors, 0);
    for bad in ["01", "-", "1.", "1e", ".5", "+1", "tru", "nul"] {
        let (report, _) = fixture(SourceKind::Train, &format!("{{\"n\":{bad}}}\n"));
        assert_eq!(report.stats.parse_errors, 1, "{bad}");
    }
    let deep = format!("{}1{}\n", "[".repeat(129), "]".repeat(129));
    let (report, _) = fixture(SourceKind::Train, &deep);
    assert!(report.error_samples[0].message.contains("嵌套层级超过 128"));
}

#[test]
fn word_lists_need_their_quotes() {
    let (report, records) = fixture(SourceKind::Wordlist, "intro\nconst ws=`中\n文`; more\n国\n");
    assert!(has(&records, "中", 20));
    assert!(has(&records, "文", 20));
    assert!(!has(&records, "国", 20));
    assert_eq!(report.stats.parse_errors, 2);
    assert_eq!(report.stats.physical_lines, 3);
    let (report, _) = fixture(SourceKind::Wordlist, "");
    assert_eq!(report.error_samples[0].message, "找不到 out.js 模板字符串起始反引号");
    let (report, _) = fixture(SourceKind::Wordlist, "`中\n");
    assert_eq!(report.error_samples[0].message, "找不到 out.js 模板字符串结束反引号");
}

#[test]
fn csv_quotes_and_columns() {
    let (report, records) = fixture(
        SourceKind::Bilibili,
        "\u{FEFF}time, Message \n1,\"他说\"\"好\"\"\"\n2\n3,坏\"引号\n4,\"没完",
    );
    assert!(has(&records, "他说", 1));
    assert!(has(&records, "好", 1));
    assert!(has(&records, "坏", 1));
    assert!(has(&records, "没完", 1));
    let messages: Vec<&str> = report
        .error_samples
        .iter()
        .map(|sample| sample.message.as_str())
        .collect();
    assert_eq!(
        messages,
        [
            "Bilibili CSV 记录列数少于表头",
            "Bilibili CSV 存在未闭合或位置错误的引号",
        ]
    );
    let (report, _) = fixture(SourceKind::Bilibili, "");
    assert_eq!(report.error_samples[0].message, "Bilibili CSV 为空");
    let (report, _) = fixture(SourceKind::Bilibili, "a,b\n");
    assert_eq!(report.error_samples[0].message, "Bilibili CSV 表头缺少 message 列");
    assert_eq!(report.error_samples[0].preview, "a,b");
}

#[test]
fn replies_lose_their_addresses() {
    let (_, records) = fixture(
        SourceKind::Bilibili,
        "message\n回复 @甲 :@乙 丙\n@丁\n中[[内]外]文]后\n",
    );
    assert!(has(&records, "丙", 1));
    assert!(has(&records, "丁", 1));
    assert!(has(&records, "中", 1));
    assert!(has(&records, "文", 1));
    assert!(has(&records, "后", 1));
    for hidden in ["甲", "乙", "内", "外"] {
        assert!(!has(&records, hidden, 1), "{hidden}");
    }
}

#[test]
fn wiki_markup_is_stripped_across_lines() {
    let input = concat_lines(&[
        "<page><title>条&amp;目&#20013;</title><ns>0</ns><text>甲{{模\n板{{内}}\n}}乙{|表\n格|}丙",
        "[[File:图|说\n明]]丁[[目标|显示]]戊&lt;br/&gt;己&lt;!--注\n释--&gt;庚&lt;gallery&gt;图\n集&lt;/gallery&gt;辛</text></page>\n",
    ]);
    let (report, records) = fixture(SourceKind::Moegirl, &input);
    let texts: Vec<&str> = records.iter().map(|record| record.text.as_str()).collect();
    assert_eq!(
        texts,
        ["条", "目中", "甲", "乙", "丙", "丁显示戊", "己", "庚", "辛"]
    );
    assert_eq!(report.stats.logical_records, 1);
    assert_eq!(report.stats.parse_errors, 0);
}

#[test]
fn redirects_and_open_pages() {
    let (report, records) = fixture(
        SourceKind::Moegirl,
        "<?xml?><page><title>甲</title><ns>0</ns><redirect title=\"乙>\"/><text>丙</text></page>\n<page><title>丁</title><ns>x</ns></page>\n<page><title>戊</title><ns>0</ns><text><![CDATA[己]]>",
    );
    let texts: Vec<&str> = records.iter().map(|record| record.text.as_str()).collect();
    assert_eq!(texts, ["戊", "己"]);
    let messages: Vec<&str> = report
        .error_samples
        .iter()
        .map(|sample| sample.message.as_str())
        .collect();
    assert_eq!(messages, ["MediaWiki ns 不是整数", "XML 文件末尾 page 未闭合"]);
}

#[test]
fn threads_may_nest() {
    let (report, records) = fixture(
        SourceKind::Tieba,
        r#"{"threads":[{"title":["甲","乙"],"replies":[{"text":"丙","replies":["丁",null]}]},{"title":1},2]}"#,
    );
    for text in ["丙", "丁"] {
        assert!(has(&records, text, 1), "{text}");
    }
    assert!(has(&records, "甲", 5) && has(&records, "乙", 5));
    assert_eq!(report.stats.logical_records, 1);
    assert_eq!(report.stats.skipped_records, 2);
    let (report, _) = fixture(SourceKind::Tieba, "{}");
    assert_eq!(
        report.error_samples[0].message,
        "Tieba 顶层必须是数组或含 data/threads 数组"
    );
    let (report, _) = fixture_bytes(SourceKind::Tieba, b"\xFF");
    assert_eq!(report.stats.invalid_utf8_lines, 1);
}

#[test]
fn reports_are_in_order() {
    let words: Vec<String> = (0..30).map(|i| "中".repeat(i % 3 + 1)).collect();
    let input = format!("`{}\n`", words.join("\n"));
    let files = vec![
        SourceFile { path: "a".to_owned(), bytes: input.as_bytes().to_vec() },
        SourceFile { path: "b".to_owned(), bytes: b"`\xE6\x96\x87`".to_vec() },
    ];
    let (report, records) = prepare_source(SourceKind::Wordlist, &files).unwrap();
    assert_eq!(records.len(), 31);
    assert_eq!(report.kind, SourceKind::Wordlist);
    assert_eq!(report.stats.files_seen, 2);
    assert_eq!(report.stats.emitted_records, 31);
    assert_eq!(report.stats.emitted_weight, 31 * 20);
    assert_eq!(report.records_by_weight, BTreeMap::from([(20, 31)]));
    assert_eq!(report.record_samples, records[..20]);
    let chars: usize = records.iter().map(|record| record.text.chars().count()).sum();
    assert_eq!(report.stats.emitted_han_chars, chars as u64);
    assert!(records
        .iter()
        .all(|record| record.text.chars().all(nutrimatic_zh::chinese::is_han)));
}

#[test]
fn preparation_reports_progress() {
    let files = vec![
        SourceFile { path: "a".to_owned(), bytes: b"`\n".to_vec() },
        SourceFile { path: "b".to_owned(), bytes: b"```".to_vec() },
    ];
    let mut events = Vec::new();
    prepare_source_with_progress(SourceKind::Wordlist, &files, |event| events.push(event)).unwrap();
    assert_eq!(events.first().unwrap().bytes_read, 0);
    let last = events.last().unwrap();
    assert_eq!((last.source.as_str(), last.file_index, last.file_count), ("b", 2, 2));
    assert_eq!((last.bytes_read, last.bytes_total), (5, 5));
    assert!(events.windows(2).all(|pair| pair[0].bytes_read <= pair[1].bytes_read));
}

#[test]
fn sources_are_read_line_by_line() {
    let mut preparer = Preparer::new(SourceKind::Wordlist);
    let mut reader = SourceReader::new(SourceKind::Wordlist, "list");
    reader.read_line("const ws=`中\n".as_bytes(), &mut preparer);
    assert_eq!(preparer.take_records().len(), 1);
    assert!(!reader.is_done());
    reader.read_line("文`".as_bytes(), &mut preparer);
    assert!(reader.is_done());
    reader.read_line("国".as_bytes(), &mut preparer);
    reader.finish(&mut preparer);
    let (report, records) = preparer.into_parts();
    assert_eq!(records.len(), 1);
    assert_eq!(report.stats.emitted_records, 2);
    assert_eq!(report.stats.parse_errors, 0);
}

#[test]
fn preparation_errors_read_as_text() {
    assert_eq!(
        PrepareError::Io { path: "p".to_owned(), message: "m".to_owned() }.to_text(),
        "无法读取 p：m"
    );
    assert_eq!(PrepareError::Output("m".to_owned()).to_text(), "无法写出语料记录：m");
}

#[test]
fn reports_of_a_preparation_come_in_order() {
    let file = |path: &str, text: &str| SourceFile {
        path: path.to_owned(),
        bytes: text.as_bytes().to_vec(),
    };
    let files = vec![file("a", "中国\n"), file("b", ""), file("c", "人民\n")];
    let mut events = Vec::new();
    prepare_source_with_progress(SourceKind::Train, &files, |event| {
        events.push((event.source, event.file_index, event.file_bytes_read, event.bytes_read));
        assert_eq!((event.file_count, event.bytes_total), (3, 14));
    })
    .unwrap();
    let expected: Vec<(String, usize, u64, u64)> = [
        ("a", 1, 0, 0),
        ("a", 1, 7, 7),
        ("a", 1, 7, 7),
        ("b", 2, 0, 7),
        ("b", 2, 0, 7),
        ("c", 3, 0, 7),
        ("c", 3, 7, 14),
        ("c", 3, 7, 14),
    ]
    .iter()
    .map(|&(source, index, read, all)| (source.to_owned(), index, read, all))
    .collect();
    assert_eq!(events, expected);
}
