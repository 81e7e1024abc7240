use ak47::counting::{count_chinese_words, count_words, counts_as_word, WordCounts};
use ak47::ranking::{rank_entries, top_entries};
use ak47::report::{
    html_for_ranking, push_decimal, render_wordcloud_html, BAR_WORDS, CLOUD_WORDS, LIST_ROWS,
    PAGE_AFTER_CLOUD, PAGE_AFTER_WORDS, PAGE_HEAD, PAGE_TAIL,
};
use ak47::session::{output_path_for, AppState, GeneratePlan};
use ak47::text::{chars_of, normalize_line_endings};

fn strings(words: &[&str]) -> Vec<String> {
    words.iter().map(|w| w.to_string()).collect()
}

fn pairs(entries: &[(String, usize)]) -> Vec<(&str, usize)> {
    entries.iter().map(|(w, c)| (w.as_str(), *c)).collect()
}

#[test]
fn crlf_becomes_lf() {
    assert_eq!(normalize_line_endings("a\r\nb\r\nc"), "a\nb\nc");
}

#[test]
fn text_without_cr_is_unchanged() {
    assert_eq!(normalize_line_endings("第一行\n第二行"), "第一行\n第二行");
    assert_eq!(normalize_line_endings(""), "");
}

#[test]
fn lone_cr_is_kept() {
    assert_eq!(normalize_line_endings("a\rb\r"), "a\rb\r");
}

#[test]
fn cr_cr_lf_leaves_one_crlf() {
    // The replacement is not idempotent on this input.
    let once = normalize_line_endings("x\r\r\ny");
    assert_eq!(once, "x\r\ny");
    assert_eq!(normalize_line_endings(&once), "x\ny");
}

#[test]
fn chars_of_keeps_order() {
    assert_eq!(chars_of("a中b"), vec!['a', '中', 'b']);
}

#[test]
fn word_test_rules() {
    assert!(counts_as_word("ab"));
    assert!(counts_as_word("中"));
    assert!(counts_as_word("中国"));
    assert!(counts_as_word("é"));
    assert!(!counts_as_word("a"));
    assert!(!counts_as_word(""));
    assert!(!counts_as_word("a1"));
    assert!(!counts_as_word("hello world"));
    assert!(!counts_as_word("！"));
    assert!(!counts_as_word("\r\n"));
}

#[test]
fn count_words_tallies_in_first_appearance_order() {
    let segs = strings(&["我们", "中国", "，", "a", "我们", "abc", "中国", "我们", "1"]);
    let counts = count_words(&segs);
    assert_eq!(
        pairs(counts.entries()),
        vec![("我们", 3), ("中国", 2), ("abc", 1)]
    );
    assert_eq!(counts.len(), 3);
    assert!(!counts.is_empty());
    assert_eq!(counts.get("我们"), 3);
    assert_eq!(counts.get("中国"), 2);
    assert_eq!(counts.get("a"), 0);
    assert_eq!(counts.get("，"), 0);
}

#[test]
fn count_words_of_nothing_is_empty() {
    let counts = count_words(&Vec::new());
    assert!(counts.is_empty());
    assert_eq!(counts.len(), 0);
    let empty = WordCounts::new();
    assert!(empty.is_empty());
}

#[test]
fn jieba_segments_mixed_text() {
    let counts = count_chinese_words("abc网球拍卖会def！！？\r\n\t");
    assert_eq!(
        pairs(counts.entries()),
        vec![("abc", 1), ("网球", 1), ("拍卖会", 1), ("def", 1)]
    );
}

#[test]
fn jieba_segments_sentence() {
    // Were the text handed back as one token, there would be a single entry.
    let counts = count_chinese_words("我们中出了一个叛徒");
    assert_eq!(
        pairs(counts.entries()),
        vec![("我们", 1), ("中", 1), ("出", 1), ("了", 1), ("一个", 1), ("叛徒", 1)]
    );
}

#[test]
fn counted_words_occur_in_text() {
    let text = "我们中出了一个叛徒，我们中出了一个叛徒。abc def";
    let counts = count_chinese_words(text);
    assert_eq!(counts.get("我们"), 2);
    assert_eq!(counts.get("叛徒"), 2);
    for (w, c) in counts.entries() {
        assert!(text.contains(w.as_str()));
        assert!(counts_as_word(w));
        assert!(*c > 0);
    }
}

#[test]
fn ranking_is_stable_and_descending() {
    let segs = strings(&["甲乙", "丙丁", "戊己", "丙丁", "庚辛", "戊己", "戊己"]);
    let counts = count_words(&segs);
    let ranked = rank_entries(&counts);
    assert_eq!(
        pairs(&ranked),
        vec![("戊己", 3), ("丙丁", 2), ("甲乙", 1), ("庚辛", 1)]
    );
}

#[test]
fn ranking_of_empty_is_empty() {
    assert!(rank_entries(&WordCounts::new()).is_empty());
}

#[test]
fn top_entries_takes_prefix() {
    let ranked = vec![("甲乙".to_string(), 3), ("丙丁".to_string(), 2), ("戊己".to_string(), 1)];
    assert_eq!(pairs(&top_entries(&ranked, 2)), vec![("甲乙", 3), ("丙丁", 2)]);
    assert_eq!(top_entries(&ranked, 10).len(), 3);
    assert!(top_entries(&ranked, 0).is_empty());
}

#[test]
fn decimal_numerals() {
    let mut s = String::from("n=");
    push_decimal(&mut s, 0);
    assert_eq!(s, "n=0");
    let mut s = String::new();
    push_decimal(&mut s, 1234567890);
    assert_eq!(s, "1234567890");
    let mut s = String::new();
    push_decimal(&mut s, usize::MAX);
    assert_eq!(s, usize::MAX.to_string());
}

#[test]
fn page_for_ranking_is_exact() {
    let ranked = vec![("我们".to_string(), 3), ("中国".to_string(), 2)];
    let html = html_for_ranking(&ranked);
    let expected = format!(
        "{}{}{}{}{}{}{}",
        PAGE_HEAD,
        r#"[{"name":"我们","value":3},{"name":"中国","value":2}]"#,
        PAGE_AFTER_CLOUD,
        r#"["我们","中国"]"#,
        PAGE_AFTER_WORDS,
        "[3,2]",
        PAGE_TAIL
    );
    assert_eq!(html, expected);
}

#[test]
fn page_escapes_json_strings() {
    let ranked = vec![("say \"hi\"\\\n\u{1}\t".to_string(), 7)];
    let html = html_for_ranking(&ranked);
    assert!(html.contains(r#"["say \"hi\"\\\n\u0001\t"]"#));
    assert!(html.contains(r#"[{"name":"say \"hi\"\\\n\u0001\t","value":7}]"#));
    assert!(html.contains("[7]"));
}

#[test]
fn page_of_empty_table() {
    let html = render_wordcloud_html(&WordCounts::new());
    assert_eq!(
        html,
        format!("{}[]{}[]{}[]{}", PAGE_HEAD, PAGE_AFTER_CLOUD, PAGE_AFTER_WORDS, PAGE_TAIL)
    );
}

#[test]
fn page_limits_cloud_and_bar() {
    let ranked: Vec<(String, usize)> = (0..60).map(|i| (format!("词{}", i), 100 - i)).collect();
    let html = html_for_ranking(&ranked);
    assert_eq!(CLOUD_WORDS, 50);
    assert_eq!(BAR_WORDS, 20);
    assert!(html.contains(r#"{"name":"词49","value":51}]"#));
    assert!(!html.contains("词50"));
    let counts: Vec<String> = (0..20).map(|i| (100 - i).to_string()).collect();
    assert!(html.contains(&format!("data: [{}]", counts.join(","))));
}

#[test]
fn render_ranks_before_rendering() {
    let segs = strings(&["甲乙", "丙丁", "丙丁"]);
    let counts = count_words(&segs);
    let html = render_wordcloud_html(&counts);
    assert!(html.contains(r#"[{"name":"丙丁","value":2},{"name":"甲乙","value":1}]"#));
    assert!(html.contains(r#"["丙丁","甲乙"]"#));
    assert!(html.contains("[2,1]"));
    assert!(html.starts_with("\n<!DOCTYPE html>"));
    assert!(html.ends_with("</html>\n"));
}

#[test]
fn output_path_appends_html() {
    assert_eq!(output_path_for("C:\\歌词\\a.txt"), "C:\\歌词\\a.txt.html");
}

#[test]
fn session_plans() {
    let mut state = AppState::new();
    assert!(matches!(state.plan_generate(), GeneratePlan::NeedFile));
    assert_eq!(state.current_path(), "");

    state.open_text("song.lrc".to_string(), "，。！ 1 2 3");
    assert!(matches!(state.plan_generate(), GeneratePlan::NothingToShow));

    state.open_text("song.lrc".to_string(), "我们，我们");
    assert_eq!(state.current_path(), "song.lrc");
    assert_eq!(state.word_count().get("我们"), 2);
    match state.plan_generate() {
        GeneratePlan::Write { output_path } => assert_eq!(output_path, "song.lrc.html"),
        _ => panic!("expected a page to be written"),
    }

    state.clear();
    assert!(matches!(state.plan_generate(), GeneratePlan::NeedFile));
    assert!(state.word_count().is_empty());
}

#[test]
fn ascii_digits_and_punctuation_count_nothing() {
    assert!(!counts_as_word("中1"));
    assert!(!counts_as_word("词,"));
    assert!(count_chinese_words("123 456, 7.8!").is_empty());
}

#[test]
fn table_from_entries() {
    let t = WordCounts::from_entries(vec![("甲乙".to_string(), 2), ("丙丁".to_string(), 5)]).unwrap();
    assert_eq!(pairs(t.entries()), vec![("甲乙", 2), ("丙丁", 5)]);
    assert_eq!(t.get("丙丁"), 5);
    assert!(WordCounts::from_entries(vec![("甲乙".to_string(), 0)]).is_none());
    assert!(
        WordCounts::from_entries(vec![("甲乙".to_string(), 1), ("甲乙".to_string(), 2)]).is_none()
    );
    assert!(WordCounts::from_entries(Vec::new()).unwrap().is_empty());
}

#[test]
fn page_from_given_table() {
    let entries: Vec<(String, usize)> = (1..=25).map(|i| (format!("w{}", i), i)).collect();
    let t = WordCounts::from_entries(entries).unwrap();
    let html = render_wordcloud_html(&t);
    let words: Vec<String> = (6..=25).rev().map(|i| format!("\"w{}\"", i)).collect();
    assert!(html.contains(&format!("data: [{}]", words.join(","))));
    assert!(html.contains(r#"{"name":"w1","value":1}]"#));
}

#[test]
fn page_ignores_table_order_when_counts_differ() {
    let a = WordCounts::from_entries(vec![
        ("甲乙".to_string(), 1),
        ("丙丁".to_string(), 3),
        ("戊己".to_string(), 2),
    ])
    .unwrap();
    let b = WordCounts::from_entries(vec![
        ("戊己".to_string(), 2),
        ("甲乙".to_string(), 1),
        ("丙丁".to_string(), 3),
    ])
    .unwrap();
    assert_eq!(render_wordcloud_html(&a), render_wordcloud_html(&b));
}

#[test]
fn open_text_counts_and_keeps() {
    let mut state = AppState::new();
    let unique = state.open_text("a.txt".to_string(), "我们中出了一个叛徒，我们");
    assert_eq!(unique, 6);
    assert_eq!(state.word_count().get("我们"), 2);
    assert_eq!(state.current_path(), "a.txt");
    assert_eq!(LIST_ROWS, 100);
}

#[test]
fn tally_of_concatenation_adds() {
    let a = strings(&["我们", "中国", "，", "我们"]);
    let b = strings(&["中国", "叛徒", "1"]);
    let mut ab = a.clone();
    ab.extend(b.clone());
    let (ta, tb, tab) = (count_words(&a), count_words(&b), count_words(&ab));
    for w in ["我们", "中国", "叛徒", "，", "1", "其他"] {
        assert_eq!(tab.get(w), ta.get(w) + tb.get(w));
    }
}

#[test]
fn non_words_leave_tally_unchanged() {
    let plain = count_words(&strings(&["我们", "中国", "我们"]));
    let noisy = count_words(&strings(&["\r\n", "我们", "，", "a", "1", "中国", "\n", "我们", "！"]));
    assert_eq!(pairs(plain.entries()), pairs(noisy.entries()));
}

#[test]
fn ranking_lists_each_word_once() {
    let counts = count_words(&strings(&["甲乙", "丙丁", "甲乙", "戊己", "丙丁", "甲乙"]));
    let ranked = rank_entries(&counts);
    let mut words: Vec<&str> = ranked.iter().map(|(w, _)| w.as_str()).collect();
    words.sort();
    words.dedup();
    assert_eq!(words.len(), ranked.len());
    assert_eq!(ranked.len(), counts.len());
}
