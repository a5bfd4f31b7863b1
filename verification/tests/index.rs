use nutrimatic_zh::index::{
    build_index, list_text_shards, merge_text_shards, merge_text_shards_with_min_count, shard_ordinal,
    shard_path, BuildOptions, ExternalIndexBuilder, IndexError, IndexMode, IndexReader, IndexRecord,
    MergeReports, MergeRun, TextShard, TrieWriter,
};

fn encode_records(entries: &[(&str, u64)]) -> Vec<u8> {
    let mut writer = TrieWriter::new(Vec::new(), IndexMode::Records).unwrap();
    for &(key, count) in entries {
        writer.push_str_sorted(key, count).unwrap();
    }
    let (bytes, _) = writer.finish().unwrap();
    bytes
}

fn walked(reader: &IndexReader) -> Vec<String> {
    let mut walker = reader.walk().ok().unwrap();
    let mut keys = Vec::new();
    while let Some(entry) = walker.next() {
        keys.push(entry.unwrap().key);
    }
    keys
}

fn ngrams(window: usize) -> IndexMode {
    IndexMode::Ngrams { window_codepoints: window }
}

#[test]
fn ordered_writer_and_reader_round_trip_unicode() {
    let data = encode_records(&[("中", 2), ("中国", 3), ("文", 1)]);
    let reader = IndexReader::from_bytes(data).unwrap();

    assert_eq!(reader.mode(), IndexMode::Records);
    assert!(!reader.implicit_prefixes());
    assert_eq!(reader.root_subtree(), 6);
    assert_eq!(reader.node_count(), 4);

    let middle = reader.find("中").unwrap().unwrap();
    assert_eq!(middle.terminal, 2);
    assert_eq!(middle.subtree, 5);
    let china = reader.find("中国").unwrap().unwrap();
    assert_eq!(china.terminal, 3);
    assert_eq!(china.subtree, 3);
    assert!(reader.find("中华").unwrap().is_none());

    let validation = reader.validate_full().unwrap();
    assert_eq!(validation.node_count, 4);
    assert_eq!(validation.edge_count, 3);
    assert_eq!(walked(&reader), ["中", "中国", "文"]);
}

#[test]
fn duplicate_sorted_keys_are_aggregated_by_the_writer() {
    let mut writer = TrieWriter::new(Vec::new(), IndexMode::Records).unwrap();
    writer.push_str_sorted("中文", 2).unwrap();
    writer.push_str_sorted("中文", 5).unwrap();
    let (bytes, stats) = writer.finish().unwrap();
    assert_eq!(stats.key_count, 1);
    let reader = IndexReader::from_bytes(bytes).unwrap();
    assert_eq!(reader.find("中文").unwrap().unwrap().terminal, 7);
}

#[test]
fn ngram_pruning_keeps_exact_frequency_on_retained_prefixes() {
    let mut writer = TrieWriter::with_min_subtree_count(Vec::new(), ngrams(2), 2).unwrap();
    writer.push_str_sorted("中华", 1).unwrap();
    writer.push_str_sorted("中国", 1).unwrap();
    writer.push_str_sorted("人民", 1).unwrap();
    let (bytes, stats) = writer.finish().unwrap();

    let reader = IndexReader::from_bytes(bytes).unwrap();
    assert_eq!(stats.node_count, 2);
    assert_eq!(stats.pruned_node_count, 4);
    assert_eq!(reader.root_subtree(), 3);
    assert_eq!(reader.find("中").unwrap().unwrap().subtree, 2);
    assert!(reader.find("中华").unwrap().is_none());
    assert!(reader.find("中国").unwrap().is_none());
    assert!(reader.find("人").unwrap().is_none());
    assert_eq!(walked(&reader), ["中"]);
    reader.validate_full().unwrap();
}

#[test]
fn fully_pruned_ngram_index_keeps_only_root_residual_frequency() {
    let mut writer = TrieWriter::with_min_subtree_count(Vec::new(), ngrams(2), 3).unwrap();
    writer.push_str_sorted("中华", 1).unwrap();
    writer.push_str_sorted("人民", 1).unwrap();
    let (bytes, stats) = writer.finish().unwrap();

    assert_eq!(stats.node_count, 1);
    assert_eq!(stats.pruned_node_count, 4);
    assert_eq!(stats.root_subtree, 2);

    let reader = IndexReader::from_bytes(bytes).unwrap();
    let root = reader.node(reader.root()).unwrap();
    assert_eq!(root.terminal, 2);
    assert_eq!(root.subtree, 2);
    assert!(root.edges.is_empty());
    assert!(walked(&reader).is_empty());
    reader.validate_full().unwrap();
}

#[test]
fn writer_rejects_unsorted_or_nonempty_output() {
    assert!(matches!(
        TrieWriter::new(vec![1], IndexMode::Records),
        Err(IndexError::OutputNotEmpty)
    ));

    let mut writer = TrieWriter::new(Vec::new(), IndexMode::Records).unwrap();
    writer.push_str_sorted("文", 1).unwrap();
    assert!(matches!(
        writer.push_str_sorted("中", 1),
        Err(IndexError::OutOfOrder)
    ));
}

#[test]
fn reader_rejects_bad_magic_and_malformed_varint() {
    let mut bad_magic = encode_records(&[("中", 1)]);
    bad_magic[0] ^= 0xff;
    assert!(matches!(
        IndexReader::from_bytes(bad_magic),
        Err(IndexError::InvalidFormat { .. })
    ));

    let mut malformed = encode_records(&[("中", 1)]);
    let mut root_bytes = [0u8; 8];
    root_bytes.copy_from_slice(&malformed[24..32]);
    let root = u64::from_le_bytes(root_bytes) as usize;
    malformed[root..].fill(0x80);
    assert!(matches!(
        IndexReader::from_bytes(malformed),
        Err(IndexError::InvalidFormat { .. })
    ));
}

#[test]
fn external_ngram_build_counts_unicode_scalars_and_keeps_shards() {
    let mut options = BuildOptions::new("root/index.nutri2", "root/shards", "run", ngrams(2));
    options.max_entries_in_memory = 2;

    let mut builder = ExternalIndexBuilder::new(options).ok().unwrap();
    builder.push_record("𠮷中国", 1).unwrap();
    let (bytes, report) = builder.finish().unwrap();

    assert_eq!(report.records_seen, 1);
    assert_eq!(report.chains_emitted, 3);
    assert_eq!(
        report.shard_paths,
        ["root/shards/run.000000.shard.txt", "root/shards/run.000001.shard.txt"]
    );
    assert_eq!(report.output_path, "root/index.nutri2");

    let reader = IndexReader::from_bytes(bytes).unwrap();
    assert!(reader.implicit_prefixes());
    assert_eq!(reader.window_codepoints(), Some(2));
    assert_eq!(reader.find("𠮷中").unwrap().unwrap().terminal, 1);
    let implicit = reader.find("中").unwrap().unwrap();
    assert_eq!(implicit.terminal, 0);
    assert_eq!(implicit.subtree, 1);
    assert_eq!(reader.find("中国").unwrap().unwrap().terminal, 1);
    assert_eq!(reader.find("国").unwrap().unwrap().terminal, 1);
    reader.validate_full().unwrap();
}

#[test]
fn external_builder_reports_monotonic_merge_progress() {
    let mut options = BuildOptions::new("index.nutri2", "shards", "progress", IndexMode::Records);
    options.max_entries_in_memory = 1;

    let mut builder = ExternalIndexBuilder::new(options).ok().unwrap();
    builder.push_record("中国", 2).unwrap();
    builder.push_record("中华", 3).unwrap();
    let mut events = Vec::new();
    builder
        .finish_with_progress(|event| events.push(event))
        .unwrap();

    assert!(!events.is_empty());
    assert!(events
        .windows(2)
        .all(|pair| pair[0].bytes_read <= pair[1].bytes_read));
    let final_event = events.last().unwrap();
    assert!(final_event.complete);
    assert_eq!(final_event.bytes_read, final_event.bytes_total);
    assert_eq!(final_event.shard_count, 2);
    assert_eq!(final_event.shard_records_read, 2);
    assert_eq!(final_event.unique_keys_written, 2);
}

#[test]
fn external_pruning_uses_global_cross_shard_frequency() {
    let mut options = BuildOptions::new("index.nutri2", "shards", "pruned", ngrams(2));
    options.max_entries_in_memory = 1;
    options.min_subtree_count = 2;

    let mut builder = ExternalIndexBuilder::new(options).ok().unwrap();
    builder.push_record("中华", 1).unwrap();
    builder.push_record("中华", 1).unwrap();
    builder.push_record("中国", 1).unwrap();
    let (bytes, report) = builder.finish().unwrap();

    assert_eq!(report.shard_paths.len(), 6);
    assert_eq!(report.min_subtree_count, 2);
    assert_eq!(report.index.root_subtree, 6);
    assert_eq!(report.index.node_count, 4);
    assert_eq!(report.index.pruned_node_count, 2);

    let reader = IndexReader::from_bytes(bytes).unwrap();
    assert_eq!(reader.find("中").unwrap().unwrap().subtree, 3);
    assert_eq!(reader.find("中华").unwrap().unwrap().subtree, 2);
    assert_eq!(reader.find("华").unwrap().unwrap().subtree, 2);
    assert!(reader.find("中国").unwrap().is_none());
    assert!(reader.find("国").unwrap().is_none());
    reader.validate_full().unwrap();
}

#[test]
fn subtree_pruning_is_rejected_for_record_indexes() {
    assert!(matches!(
        TrieWriter::with_min_subtree_count(Vec::new(), IndexMode::Records, 2),
        Err(IndexError::InvalidArgument(_))
    ));

    let mut options = BuildOptions::new("index.nutri2", "shards", "records", IndexMode::Records);
    options.min_subtree_count = 2;
    assert!(matches!(
        ExternalIndexBuilder::new(options),
        Err(IndexError::InvalidArgument(_))
    ));
}

#[test]
fn text_shards_round_trip_escaped_controls() {
    let options = BuildOptions::new("index.nutri2", "shards", "escaped", IndexMode::Records);
    let (bytes, _) = build_index(&vec![IndexRecord::new("中\\\n\t文", 4)], options).unwrap();
    let reader = IndexReader::from_bytes(bytes).unwrap();
    assert_eq!(reader.find("中\\\n\t文").unwrap().unwrap().terminal, 4);
}

#[test]
fn empty_build_still_has_a_valid_root() {
    let options = BuildOptions::new("index.nutri2", "shards", "empty", IndexMode::Records);
    let (bytes, report) = build_index(&Vec::new(), options).unwrap();
    assert!(report.shard_paths.is_empty());
    let reader = IndexReader::from_bytes(bytes).unwrap();
    assert_eq!(reader.root_subtree(), 0);
    assert_eq!(reader.node_count(), 1);
    reader.validate_full().unwrap();
}

#[test]
fn header_only_shard_merges_to_an_empty_index() {
    let shard = TextShard {
        path: "empty.000000.shard.txt".to_owned(),
        text: "NUTRIMATIC_ZH_TEXT_SHARD_V2\nmode\trecords\n".to_owned(),
    };
    let (bytes, report) = merge_text_shards(&[shard], "index.nutri2", IndexMode::Records).unwrap();
    assert_eq!(report.shard_count, 1);
    assert_eq!(report.index.root_subtree, 0);

    let reader = IndexReader::from_bytes(bytes).unwrap();
    assert_eq!(reader.root_subtree(), 0);
    assert_eq!(reader.node_count(), 1);
    reader.validate_full().unwrap();
}

#[test]
fn modes_tell_their_window() {
    assert!(ngrams(3).implicit_prefixes());
    assert_eq!(ngrams(3).window_codepoints(), Some(3));
    assert!(!IndexMode::Records.implicit_prefixes());
    assert_eq!(IndexMode::Records.window_codepoints(), None);
}

#[test]
fn writers_refuse_bad_arguments() {
    assert!(matches!(
        TrieWriter::new(Vec::new(), ngrams(0)),
        Err(IndexError::InvalidArgument(_))
    ));
    assert!(matches!(
        TrieWriter::with_min_subtree_count(Vec::new(), ngrams(2), 0),
        Err(IndexError::InvalidArgument(_))
    ));
    let mut writer = TrieWriter::new(Vec::new(), IndexMode::Records).unwrap();
    assert!(matches!(
        writer.push_str_sorted("", 1),
        Err(IndexError::InvalidArgument(_))
    ));
    assert!(matches!(
        writer.push_str_sorted("中", 0),
        Err(IndexError::InvalidArgument(_))
    ));
    assert!(matches!(
        writer.push_sorted(&[0xD800], 1),
        Err(IndexError::InvalidArgument(_))
    ));
    writer.push_sorted(&['中' as u32], 1).unwrap();
}

#[test]
fn counts_beyond_the_limit_overflow() {
    let most = i64::MAX as u64;
    let mut writer = TrieWriter::new(Vec::new(), IndexMode::Records).unwrap();
    writer.push_str_sorted("中", most).unwrap();
    let late = match writer.push_str_sorted("中", most) {
        Err(e) => Err(e),
        Ok(()) => writer.finish().map(|_| ()),
    };
    assert!(matches!(late, Err(IndexError::Overflow(_))));
}

#[test]
fn damaged_indexes_do_not_pass() {
    let sound = encode_records(&[("中", 1), ("中国", 2), ("文", 4)]);
    assert!(IndexReader::from_slice(&sound).unwrap().validate_full().is_ok());
    for at in 0..sound.len() {
        let mut damaged = sound.clone();
        damaged[at] ^= 0x01;
        if let Ok(reader) = IndexReader::from_slice(&damaged) {
            // Reading a damaged index ends, whatever it finds.
            let _ = reader.validate_full();
            let _ = reader.find("中国");
            let mut walker = match reader.walk() {
                Ok(walker) => walker,
                Err(_) => continue,
            };
            while let Some(entry) = walker.next() {
                if entry.is_err() {
                    break;
                }
            }
        }
    }
    for length in 0..sound.len() {
        assert!(IndexReader::from_slice(&sound[..length])
            .map(|reader| reader.validate_full().is_err())
            .unwrap_or(true));
    }
}

#[test]
fn shards_are_merged_whatever_their_order() {
    let shard = |path: &str, body: &str| TextShard {
        path: path.to_owned(),
        text: format!("NUTRIMATIC_ZH_TEXT_SHARD_V2\nmode\trecords\n{body}"),
    };
    let a = shard("a", "2\t中\n3\t文\n");
    let b = shard("b", "5\t中\r\n1\t人");
    let (one, report) =
        merge_text_shards(&[a.clone(), b.clone()], "out", IndexMode::Records).unwrap();
    let (other, _) = merge_text_shards(&[b, a], "out", IndexMode::Records).unwrap();
    assert_eq!(one, other);
    assert_eq!(report.index.key_count, 3);
    let reader = IndexReader::from_bytes(one).unwrap();
    assert_eq!(reader.find("中").unwrap().unwrap().terminal, 7);
    assert_eq!(walked(&reader), ["中", "人", "文"]);
}

#[test]
fn bad_shards_name_the_path_and_the_line() {
    let cases = [
        ("", 1, "unexpected end of shard"),
        ("OTHER\n", 1, "bad shard magic"),
        ("NUTRIMATIC_ZH_TEXT_SHARD_V2\n", 2, "unexpected end of shard"),
        ("NUTRIMATIC_ZH_TEXT_SHARD_V2\nrecords\n", 2, "missing mode header"),
        ("NUTRIMATIC_ZH_TEXT_SHARD_V2\nmode\tother\n", 2, "invalid mode header"),
        (
            "NUTRIMATIC_ZH_TEXT_SHARD_V2\nmode\tngrams:3\n",
            2,
            "shard mode does not match the merge",
        ),
        (
            "NUTRIMATIC_ZH_TEXT_SHARD_V2\nmode\trecords\n中\n",
            3,
            "expected count and tab-separated key",
        ),
        (
            "NUTRIMATIC_ZH_TEXT_SHARD_V2\nmode\trecords\nx\t中\n",
            3,
            "invalid count",
        ),
        (
            "NUTRIMATIC_ZH_TEXT_SHARD_V2\nmode\trecords\n0\t中\n",
            3,
            "count must be between 1 and i64::MAX",
        ),
        (
            "NUTRIMATIC_ZH_TEXT_SHARD_V2\nmode\trecords\n1\t\n",
            3,
            "empty keys are not supported",
        ),
        (
            "NUTRIMATIC_ZH_TEXT_SHARD_V2\nmode\trecords\n1\t文\n1\t中\n",
            4,
            "keys are not strictly increasing",
        ),
        (
            "NUTRIMATIC_ZH_TEXT_SHARD_V2\nmode\trecords\n1\t\\x\n",
            3,
            "unknown backslash escape",
        ),
        (
            "NUTRIMATIC_ZH_TEXT_SHARD_V2\nmode\trecords\n1\t\\u{D800}\n",
            3,
            "escape is not a Unicode scalar value",
        ),
    ];
    for (text, wanted_line, wanted_message) in cases {
        let shard = TextShard { path: "here".to_owned(), text: text.to_owned() };
        match merge_text_shards(&[shard], "out", IndexMode::Records) {
            Err(IndexError::InvalidShard { path, line, message }) => {
                assert_eq!(path, "here");
                assert_eq!(line, wanted_line, "{text:?}");
                assert_eq!(message, wanted_message, "{text:?}");
            }
            other => panic!("{text:?}: {other:?}"),
        }
    }
}

#[test]
fn merges_refuse_bad_arguments() {
    assert!(matches!(
        merge_text_shards(&[], "out", ngrams(0)),
        Err(IndexError::InvalidArgument(_))
    ));
    assert!(matches!(
        merge_text_shards_with_min_count(&[], "out", IndexMode::Records, 2),
        Err(IndexError::InvalidArgument(_))
    ));
    let huge = |path: &str| TextShard {
        path: path.to_owned(),
        text: format!(
            "NUTRIMATIC_ZH_TEXT_SHARD_V2\nmode\trecords\n{}\t中\n",
            i64::MAX
        ),
    };
    assert!(matches!(
        merge_text_shards(&[huge("a"), huge("b")], "out", IndexMode::Records),
        Err(IndexError::Overflow(_))
    ));
}

#[test]
fn shards_are_fed_line_by_line() {
    let line = |text: &str| text.chars().collect::<Vec<char>>();
    let mut run = MergeRun::new(&vec!["a".to_owned()], IndexMode::Records, 1).ok().unwrap();
    assert!(!run.is_shard_ready(0));
    run.feed(0, Some(&line("NUTRIMATIC_ZH_TEXT_SHARD_V2\n"))).unwrap();
    run.feed(0, Some(&line("mode\trecords\n"))).unwrap();
    assert!(!run.is_shard_ready(0));
    run.feed(0, Some(&line("4\t中\n"))).unwrap();
    assert!(run.is_shard_ready(0));
    assert_eq!(run.take_least().unwrap(), Some(0));
    assert_eq!(run.counts(), (1, 0));
    run.feed(0, None).unwrap();
    assert_eq!(run.take_least().unwrap(), None);
    let (bytes, stats) = run.finish().unwrap();
    assert_eq!(stats.root_subtree, 4);
    assert_eq!(bytes, encode_records(&[("中", 4)]));
}

#[test]
fn names_of_shards_tell_their_numbers() {
    assert_eq!(shard_path("dir", "run", 7), "dir/run.000007.shard.txt");
    assert_eq!(shard_path("dir/", "run", 1234567), "dir/run.1234567.shard.txt");
    assert_eq!(shard_ordinal("run", "run.000007.shard.txt"), Some(7));
    assert_eq!(shard_ordinal("run", "other.000007.shard.txt"), None);
    assert_eq!(shard_ordinal("run", "run.x.shard.txt"), None);
    assert_eq!(shard_ordinal("run", "run..shard.txt"), None);
    assert_eq!(shard_ordinal("run", "run.7.shard.txt"), None);
    assert_eq!(shard_ordinal("run", "run.+7.shard.txt"), None);
    assert_eq!(shard_ordinal("run", "run.0000007.shard.txt"), None);
    assert_eq!(shard_ordinal("run", "run.+00007.shard.txt"), None);
    assert_eq!(shard_ordinal("run", "run.1234567.shard.txt"), Some(1234567));
    let names: Vec<String> = [
        "run.000010.shard.txt",
        "run.000002.shard.txt",
        "notes.txt",
        "run.7.shard.txt",
        "run.x.shard.txt",
        "other.000000.shard.txt",
    ]
    .iter()
    .map(|name| name.to_string())
    .collect();
    assert_eq!(
        list_text_shards(&names, "run").unwrap(),
        ["run.000002.shard.txt", "run.000010.shard.txt"]
    );
    assert!(matches!(
        list_text_shards(&names, "a b"),
        Err(IndexError::InvalidArgument(_))
    ));
}

#[test]
fn builders_refuse_bad_options() {
    let sound = || BuildOptions::new("out", "shards", "run", ngrams(2));
    assert!(ExternalIndexBuilder::new(sound()).is_ok());
    let mut cases = Vec::new();
    for _ in 0..7 {
        cases.push(sound());
    }
    cases[0].mode = ngrams(0);
    cases[1].max_entries_in_memory = 0;
    cases[2].min_subtree_count = 0;
    cases[3].shard_prefix = "a/b".to_owned();
    cases[4].shard_prefix = String::new();
    cases[5].output_path = String::new();
    cases[6].shard_dir = String::new();
    for options in cases {
        assert!(matches!(
            ExternalIndexBuilder::new(options),
            Err(IndexError::InvalidArgument(_))
        ));
    }
    let mut builder = ExternalIndexBuilder::new(sound()).ok().unwrap();
    assert!(matches!(
        builder.push_record("中", 0),
        Err(IndexError::InvalidArgument(_))
    ));
    assert!(matches!(
        builder.push_record("中", u64::MAX),
        Err(IndexError::InvalidArgument(_))
    ));
}

#[test]
fn builders_spill_when_they_are_full() {
    let mut options = BuildOptions::new("out", "shards", "run", IndexMode::Records);
    options.max_entries_in_memory = 2;
    let mut builder = ExternalIndexBuilder::new(options).ok().unwrap();
    assert_eq!(builder.spill().unwrap(), None);
    builder.push_record("文", 1).unwrap();
    assert_eq!(builder.pending_entries(), 1);
    builder.push_record("中", 2).unwrap();
    assert_eq!(builder.pending_entries(), 0);
    builder.push_record("", 9).unwrap();
    builder.push_record("中", 3).unwrap();
    assert_eq!(builder.spill().unwrap().unwrap(), "shards/run.000001.shard.txt");
    assert_eq!(builder.shard_paths().len(), 2);
    assert_eq!(builder.options().max_entries_in_memory, 2);
    let shards = builder.take_shards();
    assert_eq!(
        shards[0].text,
        "NUTRIMATIC_ZH_TEXT_SHARD_V2\nmode\trecords\n2\t中\n1\t文\n"
    );
    let (bytes, report) = merge_text_shards(&shards, "out", IndexMode::Records).unwrap();
    assert_eq!(IndexReader::from_bytes(bytes).unwrap().find("中").unwrap().unwrap().terminal, 5);
    let report = builder.report(report.index);
    assert_eq!(report.records_seen, 4);
    assert_eq!(report.empty_records, 1);
    assert_eq!(report.chains_emitted, 3);
}

#[test]
fn ngram_indexes_count_occurrences() {
    let options = BuildOptions::new("out", "shards", "run", ngrams(3));
    let records = vec![IndexRecord::new("中中中", 2), IndexRecord::new("国中", 1)];
    let (bytes, _) = build_index(&records, options).unwrap();
    let reader = IndexReader::from_bytes(bytes).unwrap();
    assert_eq!(reader.find("中").unwrap().unwrap().subtree, 7);
    assert_eq!(reader.find("中中").unwrap().unwrap().subtree, 4);
    assert_eq!(reader.find("国中").unwrap().unwrap().subtree, 1);
    assert!(reader.find("中国").unwrap().is_none());
}

#[test]
fn index_errors_read_as_text() {
    let text = |e: IndexError| e.to_text();
    for e in [
        IndexError::OutputNotEmpty,
        IndexError::OutOfOrder,
        IndexError::Overflow("merged frequency"),
        IndexError::AlreadyExists("out".to_owned()),
        IndexError::InvalidArgument("why".to_owned()),
        IndexError::InvalidFormat { offset: 3, message: "why".to_owned() },
        IndexError::InvalidShard { path: "p".to_owned(), line: 3, message: "why".to_owned() },
        IndexError::Io { path: Some("p".to_owned()), message: "why".to_owned() },
    ] {
        assert!(!text(e).is_empty());
    }
    assert!(text(IndexError::AlreadyExists("out".to_owned())).contains("out"));
}

#[test]
fn built_indexes_ignore_order_and_shards() {
    let records = [("中国人", 3), ("中华", 5), ("中国", 2), ("人中国", 1), ("中华", 4)];
    let build = |order: &[usize], max: usize, mode: IndexMode| {
        let records: Vec<IndexRecord> = order
            .iter()
            .map(|&i| IndexRecord::new(records[i].0, records[i].1))
            .collect();
        let mut options = BuildOptions::new("out", "shards", "run", mode);
        options.max_entries_in_memory = max;
        build_index(&records, options).unwrap()
    };
    for mode in [IndexMode::Records, ngrams(2)] {
        let (bytes, report) = build(&[0, 1, 2, 3, 4], 1000, mode);
        assert_eq!(report.shard_paths.len(), 1);
        for (order, max) in [([4, 3, 2, 1, 0], 1000), ([0, 1, 2, 3, 4], 1), ([2, 4, 0, 3, 1], 2)] {
            let (other, again) = build(&order, max, mode);
            assert_eq!(other, bytes);
            assert_eq!(again.index, report.index);
        }
    }
    let (_, report) = build(&[0, 1, 2, 3, 4], 2, IndexMode::Records);
    assert_eq!(report.shard_paths.len(), 3);
}

#[test]
fn only_the_sum_of_one_key_overflows_a_shard() {
    let most = i64::MAX as u64;
    let options = || BuildOptions::new("out", "shards", "run", IndexMode::Records);
    let mut builder = ExternalIndexBuilder::new(options()).unwrap();
    builder.push_record("中", most).unwrap();
    builder.push_record("国", most).unwrap();
    builder.push_record("人", most).unwrap();
    assert_eq!(builder.pending_entries(), 3);
    assert_eq!(builder.spill().unwrap().unwrap(), "shards/run.000000.shard.txt");
    builder.push_record("中", 1).unwrap();
    builder.push_record("中", most).unwrap();
    match builder.spill() {
        Err(IndexError::Overflow(what)) => assert_eq!(what, "shard frequency"),
        other => panic!("{other:?}"),
    }
    let mut small = options();
    small.max_entries_in_memory = 2;
    let mut builder = ExternalIndexBuilder::new(small).unwrap();
    builder.push_record("中", most).unwrap();
    match builder.push_record("中", 1) {
        Err(IndexError::Overflow(what)) => assert_eq!(what, "shard frequency"),
        other => panic!("{other:?}"),
    }
}

#[test]
fn merges_report_their_start_and_end() {
    let mut options = BuildOptions::new("out", "shards", "run", IndexMode::Records);
    options.max_entries_in_memory = 2;
    let mut builder = ExternalIndexBuilder::new(options).unwrap();
    for text in ["中", "国", "人", "民", "中"] {
        builder.push_record(text, 1).unwrap();
    }
    let mut events = Vec::new();
    builder.finish_with_progress(|event| events.push(event)).unwrap();
    let last = events.len() - 1;
    assert!(events.iter().enumerate().all(|(i, event)| event.complete == (i == last)));
    assert!(events.windows(2).all(|pair| {
        pair[0].bytes_read <= pair[1].bytes_read
            && pair[0].shard_records_read <= pair[1].shard_records_read
            && pair[0].unique_keys_written <= pair[1].unique_keys_written
    }));
    let first = events[0];
    assert_eq!(
        (first.shard_records_read, first.unique_keys_written, first.shard_count, first.complete),
        (0, 0, 3, false)
    );
    assert!(first.bytes_read > 0 && first.bytes_read < first.bytes_total);
    for (event, complete) in events[events.len() - 2..].iter().zip([false, true]) {
        assert_eq!(event.complete, complete);
        assert_eq!(event.bytes_read, event.bytes_total);
        assert_eq!(event.shard_records_read, 5);
        assert_eq!(event.unique_keys_written, 4);
    }
}

#[test]
fn the_line_behind_a_record_is_read_before_it_is_counted() {
    let most = i64::MAX as u64;
    let shard = |path: &str, body: &str| TextShard {
        path: path.to_owned(),
        text: format!("NUTRIMATIC_ZH_TEXT_SHARD_V2\nmode\trecords\n{body}"),
    };
    let merge = |shards: &[TextShard]| {
        merge_text_shards(shards, "out", IndexMode::Records).err().unwrap()
    };
    let first = shard("a", &format!("{most}\t中\n"));
    match merge(&[first.clone(), shard("b", "1\t中\n1\t国\n")]) {
        IndexError::Overflow(what) => assert_eq!(what, "merged frequency"),
        other => panic!("{other:?}"),
    }
    match merge(&[first.clone(), shard("b", "1\t中国\n")]) {
        IndexError::Overflow(what) => assert_eq!(what, "subtree frequency"),
        other => panic!("{other:?}"),
    }
    match merge(&[first, shard("b", "1\t中\nx\t国\n")]) {
        IndexError::InvalidShard { path, line, .. } => {
            assert_eq!((path.as_str(), line), ("b", 4));
        }
        other => panic!("{other:?}"),
    }
    match merge(&[shard("a", "1\t中\n"), shard("b", "1\t中\nx\t国\n")]) {
        IndexError::InvalidShard { path, .. } => assert_eq!(path, "b"),
        other => panic!("{other:?}"),
    }
}

#[test]
fn the_fault_that_is_met_first_is_given() {
    let shard = |path: &str, body: &str| TextShard {
        path: path.to_owned(),
        text: format!("NUTRIMATIC_ZH_TEXT_SHARD_V2\nmode\trecords\n{body}"),
    };
    let faulty = |shards: &[TextShard]| match merge_text_shards(shards, "out", IndexMode::Records) {
        Err(IndexError::InvalidShard { path, line, .. }) => (path, line),
        _ => panic!("no fault of a shard"),
    };
    let late = shard("late", "1\tb\nx\tc\n");
    let early = shard("early", "1\ta\nx\tc\n");
    let same = shard("same", "2\ta\nx\tc\n");
    let empty = shard("empty", "x\ta\n");
    assert_eq!(faulty(&[late.clone(), early.clone()]), ("early".to_owned(), 4));
    assert_eq!(faulty(&[same.clone(), late.clone(), early.clone()]), ("same".to_owned(), 4));
    assert_eq!(faulty(&[early.clone(), same, late.clone()]), ("early".to_owned(), 4));
    assert_eq!(faulty(&[late, early, empty]), ("empty".to_owned(), 3));
}

#[test]
fn reports_of_a_merge_follow_what_is_read() {
    let mut reports = MergeReports::new(3_000_000, 2);
    reports.read(10);
    let start = reports.report(0, 0);
    assert_eq!((start.bytes_read, start.bytes_total, start.shard_count), (10, 3_000_000, 2));
    reports.read(1000);
    assert_eq!(reports.report_if_due(1, 0), None);
    reports.read(1_048_576);
    let next = reports.report_if_due(5, 3).unwrap();
    assert_eq!((next.bytes_read, next.shard_records_read, next.complete), (1_049_586, 5, false));
    assert_eq!(reports.report_if_due(6, 3), None);
    reports.read(u64::MAX);
    assert_eq!(reports.report_if_due(6, 3).unwrap().bytes_read, u64::MAX);
    assert!(reports.complete(6, 4).complete);
    assert_eq!(MergeReports::keys_in_all(0, 0), 0);
    assert_eq!(MergeReports::keys_in_all(6, 3), 4);
}
