use nutrimatic_zh::chinese::ChineseData;
use nutrimatic_zh::corpus::{PrepareReport, PrepareStats, SourceKind, WeightedRecord};
use nutrimatic_zh::index::{
    BuildOptions, BuildReport, ExternalIndexBuilder, IndexMode, IndexReader, IndexWriteStats,
    TrieWriter,
};
use nutrimatic_zh::search::{
    search, SearchError, SearchHit, SearchOptions, SearchReport, SearchStopReason,
};
use nutrimatic_zh::web::{
    admit_search, build_report_json, close_stream, error_event_line, http_chunk,
    index_settings_from_cli, is_client_disconnect, json_error, json_string, last_chunk, log_text,
    open_stream, parse_options, parse_query_string, parse_record_line, parse_search_request,
    percent_decode, prepare_report_json, progress_share, push_line, queue_full_answer,
    queued_event_line, record_line, request_state, request_text, response_head, route_request,
    search_answer,
    search_event_json, search_event_line, search_options_from_cli, search_report_json, stream_head,
    stream_loss, ConnectionError, LineError, OptionValue, Page, RequestState, Route,
    StaticResponse, StreamLoss, StreamOpening,
};
use std::collections::BTreeMap;

#[test]
fn url_and_json_escaping_are_unicode_safe() {
    assert_eq!(percent_decode("%E4%B8%AD+%23").unwrap(), "中 #");
    assert_eq!(json_string("中\n\""), "\"中\\n\\\"\"");
    assert_eq!(log_text("中文\n查询"), "中文\\n查询");
}

fn arguments(values: &[&str]) -> Vec<Option<String>> {
    values.iter().map(|value| Some(value.to_string())).collect()
}

#[test]
fn option_parser_preserves_non_unicode_paths_as_positionals() {
    let given = arguments(&["--limit", "12", "中文"]);
    let parsed = parse_options(&given, &vec!["limit"], &vec![]).unwrap();
    assert_eq!(parsed.size(&given, "limit").unwrap(), Some(12));
    assert_eq!(parsed.positional, [2]);

    let mut given = arguments(&["--limit", "12"]);
    given.push(None);
    let parsed = parse_options(&given, &vec!["limit"], &vec![]).unwrap();
    assert_eq!(parsed.positional, [2]);
}

#[test]
fn prepare_report_includes_emitted_record_samples() {
    let report = PrepareReport {
        kind: SourceKind::Wordlist,
        stats: PrepareStats::default(),
        records_by_weight: Default::default(),
        record_samples: vec![WeightedRecord { text: "中文".to_owned(), weight: 20 }],
        error_samples: Vec::new(),
    };
    let json = prepare_report_json(&report);
    assert!(json.contains(r#""record_samples":[{"weight":20,"text":"中文"}]"#));
}

#[test]
fn search_request_keeps_decoded_chinese_for_logging() {
    let request = parse_search_request("q=%E4%B8%AD.*&limit=12", &SearchOptions::default(), &ChineseData::default())
        .ok()
        .unwrap();
    assert_eq!(request.query, "中.*");
    assert_eq!(request.options.limit, 12);
}

#[test]
fn invalid_search_request_returns_readable_json_error() {
    let response = match parse_search_request("q=%E4%B8%AD%5B", &SearchOptions::default(), &ChineseData::default()) {
        Ok(_) => panic!("invalid query unexpectedly parsed"),
        Err(refused) => refused.response,
    };
    assert_eq!(response.status, 400);
    let body = String::from_utf8(response.body).unwrap();
    assert!(body.contains("字符类缺少 ]"));
    assert!(!body.contains("%E4%B8%AD"));
}

#[test]
fn expected_client_disconnects_are_not_server_errors() {
    assert!(is_client_disconnect(&vec![ConnectionError::BrokenPipe]));
    assert!(!is_client_disconnect(&vec![ConnectionError::Other]));
    assert!(is_client_disconnect(&vec![
        ConnectionError::Foreign,
        ConnectionError::ConnectionReset
    ]));
}

#[test]
fn escapes_of_urls_must_be_sound() {
    assert_eq!(percent_decode("100%").unwrap_err(), "不完整的 URL 百分号转义");
    assert_eq!(percent_decode("%zz").unwrap_err(), "URL 百分号转义含非十六进制字符");
    assert_eq!(percent_decode("%FF").unwrap_err(), "URL 参数不是 UTF-8");
    assert_eq!(percent_decode("中%41").unwrap(), "中A");
    assert_eq!(
        parse_query_string("a=1&b&c=%2B").unwrap(),
        [
            ("a".to_owned(), "1".to_owned()),
            ("b".to_owned(), String::new()),
            ("c".to_owned(), "+".to_owned()),
        ]
    );
    assert!(parse_query_string("").unwrap().is_empty());
    assert!(parse_query_string("a=%").is_err());
}

#[test]
fn search_requests_are_checked() {
    let base = SearchOptions::default();
    let refused = |query: &str| {
        let refused = parse_search_request(query, &base, &ChineseData::default()).err().unwrap();
        assert_eq!(refused.response.status, 400);
        assert_eq!(
            String::from_utf8(refused.response.body).unwrap(),
            format!("{{\"error\":{}}}", json_string(&refused.message))
        );
        (refused.query, refused.message)
    };
    assert_eq!(refused("x=1"), (None, "缺少查询参数 q".to_owned()));
    assert_eq!(refused("q=%"), (None, "不完整的 URL 百分号转义".to_owned()));
    let long = "中".repeat(683);
    for query in ["", long.as_str()] {
        assert_eq!(
            refused(&format!("q={query}")),
            (
                Some(query.to_owned()),
                "查询不能为空且不得超过 2048 个 UTF-8 字节".to_owned()
            )
        );
    }
    for limit in ["0", "501", "x", "-1"] {
        assert_eq!(
            refused(&format!("q=中&limit={limit}")).1,
            "limit 必须在 1..=500 范围内"
        );
    }
    // The last of several values counts.
    let request = parse_search_request("q=中&limit=3&limit=5", &base, &ChineseData::default()).ok().unwrap();
    assert_eq!(request.options.limit, 5);
    assert!(request.program.matches("中"));
}

#[test]
fn requests_are_routed() {
    let route = |text: &str| route_request(text);
    assert_eq!(route("GET / HTTP/1.1\r\n\r\n"), (false, Route::Page(Page::Home)));
    assert_eq!(
        route("HEAD /style.css HTTP/1.0\r\n\r\n"),
        (true, Route::Page(Page::Style))
    );
    assert_eq!(
        route("GET /api/search?q=1?2 HTTP/1.1\n\n"),
        (false, Route::Search("q=1?2".to_owned()))
    );
    assert_eq!(
        route("GET /api/search/stream HTTP/1.1"),
        (false, Route::Stream(String::new()))
    );
    assert_eq!(route("GET /healthz HTTP/1.1"), (false, Route::Health));
    assert_eq!(route("GET /none HTTP/1.1"), (false, Route::NotFound));
    assert_eq!(route("POST / HTTP/1.1"), (false, Route::Refused));
    assert_eq!(route("HEAD / HTTP/2"), (true, Route::Refused));
    assert_eq!(route(""), (false, Route::Refused));
}

#[test]
fn requests_end_at_a_blank_line() {
    assert_eq!(request_state(b"GET / HTTP/1.1\r\n\r\n"), RequestState::Complete);
    assert_eq!(request_state(b"GET /\n\n"), RequestState::Complete);
    assert_eq!(request_state(b"GET /\r\n"), RequestState::More);
    assert_eq!(request_state(&[b'x'; 16384]), RequestState::More);
    assert_eq!(request_state(&[b'x'; 16385]), RequestState::TooLong);
}

#[test]
fn responses_have_heads() {
    let response = StaticResponse::health();
    assert_eq!(response.body, b"{\"ok\":true}");
    let head = response_head(&response);
    assert!(head.starts_with(
        "HTTP/1.1 200 OK\r\nContent-Type: application/json; charset=utf-8\r\nContent-Length: 11\r\nCache-Control: no-store\r\n"
    ));
    assert!(head.ends_with("Connection: close\r\n\r\n"));
    for (response, line) in [
        (StaticResponse::refused(), "HTTP/1.1 405 Method Not Allowed\r\n"),
        (StaticResponse::not_found(), "HTTP/1.1 404 Not Found\r\n"),
        (json_error(429, "m"), "HTTP/1.1 429 Too Many Requests\r\n"),
        (json_error(422, "m"), "HTTP/1.1 422 Unprocessable Content\r\n"),
        (json_error(400, "m"), "HTTP/1.1 400 Bad Request\r\n"),
        (json_error(500, "m"), "HTTP/1.1 500 Error\r\n"),
    ] {
        assert!(response_head(&response).starts_with(line));
    }
    let page = StaticResponse::page(Page::Icon, b"x");
    assert_eq!(page.content_type, "image/x-icon");
    assert_eq!(page.cache_control, "public, max-age=300");
}

#[test]
fn streams_come_in_chunks() {
    assert!(stream_head().contains("Transfer-Encoding: chunked"));
    assert!(stream_head().contains("application/x-ndjson"));
    assert_eq!(http_chunk(b"hello"), b"5\r\nhello\r\n");
    assert_eq!(http_chunk(&[b'x'; 26])[..4], *b"1A\r\n");
    assert_eq!(last_chunk(), b"0\r\n\r\n");
    assert_eq!(error_event_line("m\"m"), "{\"type\":\"error\",\"error\":\"m\\\"m\"}\n");
    assert_eq!(queued_event_line(3), "{\"type\":\"queued\",\"ahead\":3}\n");
}

#[test]
fn a_found_report_is_written_as_json() {
    let mut writer = TrieWriter::new(Vec::new(), IndexMode::Records).unwrap();
    writer.push_str_sorted("中华", 5).unwrap();
    writer.push_str_sorted("中国", 8).unwrap();
    let (bytes, _) = writer.finish().unwrap();
    let index = IndexReader::from_bytes(bytes).unwrap();
    let request = parse_search_request("q=%E4%B8%AD.*", &SearchOptions::default(), &ChineseData::default())
        .ok()
        .unwrap();
    let report = search(&index, &request.program, &request.options).unwrap();
    let line = search_event_line("complete", &report);
    assert!(line.starts_with(
        "{\"type\":\"complete\",\"results\":[{\"text\":\"中国\",\"score\":8},{\"text\":\"中华\",\"score\":5}],"
    ));
    assert!(line.ends_with("\"truncated\":false,\"stop_reason\":null}\n"));
}

#[test]
fn reports_of_searches_have_an_exact_form() {
    let report = SearchReport {
        results: vec![SearchHit { text: "中".to_owned(), score: 2 }],
        visited: 3,
        derivative_states: 4,
        truncated: true,
        stop_reason: Some(SearchStopReason::StateLimit),
    };
    assert_eq!(
        search_report_json(&report),
        "{\"results\":[{\"text\":\"中\",\"score\":2}],\"visited\":3,\"states\":4,\"truncated\":true,\"stop_reason\":\"state_limit\"}"
    );
    assert!(search_event_json("progress", &report).starts_with("{\"type\":\"progress\","));
}

#[test]
fn reports_of_builds_have_an_exact_form() {
    let report = BuildReport {
        output_path: "out".to_owned(),
        shard_paths: vec!["a".to_owned(), "b\"".to_owned()],
        records_seen: 1,
        empty_records: 2,
        chains_emitted: 3,
        min_subtree_count: 4,
        index: IndexWriteStats {
            node_count: 5,
            pruned_node_count: 6,
            key_count: 7,
            root_subtree: 8,
            bytes_written: 9,
        },
    };
    assert_eq!(
        build_report_json(&report),
        "{\n  \"output\":\"out\",\n  \"records_seen\":1,\n  \"empty_records\":2,\n  \"chains_emitted\":3,\n  \"min_subtree_count\":4,\n  \"node_count\":5,\n  \"key_count\":7,\n  \"pruned_node_count\":6,\n  \"root_subtree\":8,\n  \"bytes_written\":9,\n  \"shards\":[\"a\",\"b\\\"\"]\n}\n"
    );
}

#[test]
fn reports_of_sources_have_an_exact_form() {
    let report = PrepareReport {
        kind: SourceKind::Train,
        stats: PrepareStats::default(),
        records_by_weight: BTreeMap::from([(20, 3), (1, 2)]),
        record_samples: Vec::new(),
        error_samples: Vec::new(),
    };
    assert_eq!(
        prepare_report_json(&report),
        "{\n  \"kind\":\"train\",\n  \"stats\":{\"files_seen\":0,\"bytes_read\":0,\"physical_lines\":0,\"logical_records\":0,\"selected_fields\":0,\"fields_without_han\":0,\"emitted_records\":0,\"emitted_han_chars\":0,\"emitted_weight\":0,\"skipped_records\":0,\"parse_errors\":0,\"invalid_utf8_lines\":0},\n  \"records_by_weight\":{\"1\":2,\"20\":3},\n  \"record_samples\":[],\n  \"error_samples\":[]\n}\n"
    );
}

#[test]
fn written_json_is_read_back() {
    for text in ["", "中\n\r\t\"\\/", "\u{0}\u{1f}\u{7f}", "𠮷"] {
        let input = format!("{{\"text\":{}}}", json_string(text));
        let value = nutrimatic_zh::corpus::json::parse_json(&input).unwrap();
        assert_eq!(value.get("text").unwrap().as_str().unwrap(), text);
    }
    assert_eq!(json_string("\u{1f}"), "\"\\u001F\"");
}

#[test]
fn long_texts_are_cut_in_logs() {
    let long = "中".repeat(161);
    assert_eq!(log_text(&long), format!("{}…", "中".repeat(160)));
    assert_eq!(log_text("\u{7f}\r\t"), "\\u{7F}\\r\\t");
}

#[test]
fn options_are_checked() {
    let parse = |values: &[&str]| {
        parse_options(&arguments(values), &vec!["limit", "index"], &vec!["help"])
    };
    assert_eq!(parse(&["--limit"]).unwrap_err(), "选项 --limit 缺少值");
    assert_eq!(
        parse(&["--limit=1", "--limit", "2"]).unwrap_err(),
        "选项 --limit 重复"
    );
    assert_eq!(parse(&["--help", "--help"]).unwrap_err(), "选项 --help 重复");
    assert_eq!(parse(&["--other"]).unwrap_err(), "未知选项 --other");
    assert_eq!(parse(&["--help=1"]).unwrap_err(), "未知选项 --help");
    let options = parse(&["--index=a=b", "x", "--", "--limit"]).unwrap();
    assert_eq!(options.value("index"), Some(&OptionValue::Inline("a=b".to_owned())));
    assert_eq!(options.positional, [1, 3]);
    assert!(!options.flag("help"));
    assert_eq!(options.required("limit").unwrap_err(), "缺少必需选项 --limit");
    let given = arguments(&["--limit", "x"]);
    let options = parse(&["--limit", "x"]).unwrap();
    assert_eq!(options.size(&given, "limit").unwrap_err(), "--limit 不是有效非负整数");
    let given = vec![Some("--limit".to_owned()), None];
    let options = parse_options(&given, &vec!["limit"], &vec![]).unwrap();
    assert_eq!(
        options.text(&given, "limit").unwrap_err(),
        "--limit 的值必须是 Unicode 文本"
    );
}

#[test]
fn settings_have_defaults() {
    let names = vec![
        "limit", "max-nodes", "max-states", "window", "min-count", "max-entries", "shard-prefix",
    ];
    let given = arguments(&["--max-nodes", "7", "--window=3"]);
    let options = parse_options(&given, &names, &vec![]).unwrap();
    assert_eq!(
        search_options_from_cli(&options, &given).unwrap(),
        SearchOptions { max_nodes: 7, ..SearchOptions::default() }
    );
    let settings = index_settings_from_cli(&options, &given).unwrap();
    assert_eq!(
        (settings.window, settings.min_count, settings.max_entries),
        (3, 5, 1_000_000)
    );
    assert_eq!(settings.shard_prefix, "nutrimatic-zh");
}

#[test]
fn record_lines_are_checked() {
    let parse = |line: &str| parse_record_line("f", 4, line);
    assert_eq!(parse("20\t中国\r\n").unwrap(), Some(("中国".to_owned(), 20)));
    assert_eq!(parse("\n").unwrap(), None);
    assert_eq!(parse("3\t").unwrap(), None);
    assert_eq!(parse("中国").unwrap_err(), "f 第 4 行不是 权重<TAB>文本");
    assert_eq!(parse("x\t中").unwrap_err(), "f 第 4 行权重无效");
    assert_eq!(parse("0\t中").unwrap_err(), "f 第 4 行权重必须在 1..=i64::MAX");
    assert_eq!(
        parse("1\t中a").unwrap_err(),
        "f 第 4 行含非汉字 'a'；请重新 prepare"
    );
    assert_eq!(
        parse("1\t中\u{1}").unwrap_err(),
        "f 第 4 行含非汉字 '\\u{1}'；请重新 prepare"
    );
}

#[test]
fn progress_is_a_share() {
    assert_eq!(progress_share(0, 0, 100), 100);
    assert_eq!(progress_share(1, 3, 100), 33);
    assert_eq!(progress_share(9, 3, 28), 28);
    assert_eq!(progress_share(u64::MAX - 1, u64::MAX, 100), 99);
}

#[test]
fn the_queue_has_an_end() {
    assert_eq!(admit_search(0), Some(1));
    assert_eq!(admit_search(32), Some(33));
    assert_eq!(admit_search(33), None);
}

#[test]
fn properties_come_from_the_data() {
    let data = ChineseData::from_sources(
        "const hanzi=`一\n丨\n木|一丨\n林|木木\n`",
        "const spell = {\n    \"lin\": \"1:林2\",\n};",
        "const ws=`林`;",
    )
    .unwrap();
    let request =
        parse_search_request("q=%40b(%E6%9C%A8)", &SearchOptions::default(), &data)
            .ok()
            .unwrap();
    assert!(request.program.matches("林"));
}

fn found() -> SearchReport {
    SearchReport {
        results: vec![SearchHit { text: "中".to_owned(), score: 2 }],
        visited: 3,
        derivative_states: 4,
        truncated: false,
        stop_reason: None,
    }
}

#[test]
fn searches_are_answered() {
    let answer = search_answer(&Ok(found()));
    assert_eq!(answer.status, 200);
    assert_eq!(answer.body, search_report_json(&found()).into_bytes());
    let answer = search_answer(&Err(SearchError::InvalidOptions("x".to_owned())));
    assert_eq!(answer.status, 422);
    assert_eq!(answer.body, "{\"error\":\"搜索参数无效：x\"}".as_bytes());
    let answer = queue_full_answer();
    assert_eq!(answer.status, 429);
    assert_eq!(answer.body, "{\"error\":\"搜索队列已满，请稍后重试\"}".as_bytes());
}

#[test]
fn streams_begin_and_end() {
    assert_eq!(open_stream(Some(0)), StreamOpening::Ready);
    assert_eq!(open_stream(Some(2)), StreamOpening::Queued(queued_event_line(2)));
    assert_eq!(
        open_stream(None),
        StreamOpening::Full(error_event_line("搜索队列已满，请稍后重试"))
    );
    assert_eq!(close_stream(&Ok(found())), search_event_line("complete", &found()));
    assert_eq!(
        close_stream(&Err(SearchError::InvalidOptions("x".to_owned()))),
        error_event_line("搜索参数无效：x")
    );
    assert_eq!(stream_loss(ConnectionError::NotConnected), StreamLoss::Left);
    assert_eq!(stream_loss(ConnectionError::Other), StreamLoss::Fault);
}

#[test]
fn lines_feed_the_builder() {
    let mode = IndexMode::Ngrams { window_codepoints: 2 };
    let options = BuildOptions::new("out", "shards", "run", mode);
    let mut builder = ExternalIndexBuilder::new(options).ok().unwrap();
    assert!(push_line(&mut builder, "f", 1, "3\t中国\n").unwrap());
    assert!(!push_line(&mut builder, "f", 2, "\n").unwrap());
    match push_line(&mut builder, "f", 3, "x\n") {
        Err(LineError::Line(message)) => assert_eq!(message, "f 第 3 行不是 权重<TAB>文本"),
        other => panic!("{other:?}"),
    }
    assert_eq!(builder.pending_entries(), 2);
    let (bytes, report) = builder.finish().unwrap();
    assert_eq!(report.records_seen, 1);
    let reader = IndexReader::from_bytes(bytes).unwrap();
    assert_eq!(reader.find("中国").unwrap().unwrap().subtree, 3);
}

#[test]
fn error_answers_are_read_back() {
    for message in ["", "中\n\"\\", "\u{1}"] {
        let body = String::from_utf8(json_error(400, message).body).unwrap();
        let value = nutrimatic_zh::corpus::json::parse_json(&body).unwrap();
        assert_eq!(value.get("error").unwrap().as_str().unwrap(), message);
        assert_eq!(value.as_object().unwrap().len(), 1);
    }
    assert_eq!(percent_decode("中文-.*").unwrap(), "中文-.*");
}

#[test]
fn written_report_of_a_search_is_read_back() {
    let report = SearchReport {
        results: vec![
            SearchHit { text: "中\n\"".to_string(), score: 7 },
            SearchHit { text: String::new(), score: 0 },
        ],
        visited: 10,
        derivative_states: 0,
        truncated: true,
        stop_reason: Some(SearchStopReason::NodeLimit),
    };
    let written = search_event_json("progress", &report);
    let value = nutrimatic_zh::corpus::json::parse_json(&written).unwrap();
    assert_eq!(value.get("type").unwrap().as_str(), Some("progress"));
    let results = value.get("results").unwrap().as_array().unwrap();
    assert_eq!(results.len(), 2);
    assert_eq!(results[0].get("text").unwrap().as_str(), Some("中\n\""));
    assert_eq!(results[1].get("text").unwrap().as_str(), Some(""));
    assert_eq!(value.get("stop_reason").unwrap().as_str(), Some("node_limit"));
    let names: Vec<&str> = value
        .as_object()
        .unwrap()
        .iter()
        .map(|field| field.0.as_str())
        .collect();
    assert_eq!(
        names,
        ["type", "results", "visited", "states", "truncated", "stop_reason"]
    );
}

#[test]
fn lines_of_records_are_read_back() {
    for (text, weight) in [("中国", 1), ("〇", i64::MAX as u64), ("𠮷野家", 20)] {
        let record = WeightedRecord { text: text.to_owned(), weight };
        let line = record_line(&record);
        assert_eq!(line, format!("{}\t{}\n", weight, text));
        assert_eq!(
            parse_record_line("f", 1, &line),
            Ok(Some((text.to_owned(), weight)))
        );
    }
}

#[test]
fn requests_are_texts() {
    assert_eq!(request_text("GET /中\r\n\r\n".as_bytes()), Ok("GET /中\r\n\r\n".to_owned()));
    assert_eq!(request_text(&[71, 0xff]), Err("HTTP 请求头不是 UTF-8"));
}

#[test]
fn searches_that_are_asked_for_keep_their_groups() {
    let options = SearchOptions::default();
    let request = parse_search_request("q=@t(A)@t(A)", &options, &ChineseData::default()).ok().unwrap();
    assert_eq!(request.program.capture_count, 1);
    assert!(request.program.matches("人人"));
    assert!(!request.program.matches("人民"));
    let refused = parse_search_request("q=%23", &options, &ChineseData::default()).err().unwrap();
    assert_eq!(refused.response.status, 400);
    assert_eq!(refused.response.content_type, "application/json; charset=utf-8");
    assert_eq!(refused.response.cache_control, "no-store");
}
