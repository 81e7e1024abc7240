use vstd::prelude::*;
use crate::counting::{table_view, WordCounts};
use crate::ranking::{
    counts_distinct, is_stable_ranking, law_ranking_ignores_table_order, law_ranking_is_unique,
    rank_entries, top_entries,
};
use crate::text::push_char;
use vstd::string::StringExecFns;

verus! {

/// How many of the most frequent words the word cloud shows.
pub const CLOUD_WORDS: usize = 50;

/// How many of the most frequent words the bar chart shows.
pub const BAR_WORDS: usize = 20;

/// How many of the most frequent words the result list shows.
pub const LIST_ROWS: usize = 100;

/// The page up to the word-cloud data.
pub const PAGE_HEAD: &'static str = r#"
<!DOCTYPE html>
<html>
<head>
    <meta charset="UTF-8">
    <title>词频可视化</title>
    <script src="https://cdn.jsdelivr.net/npm/echarts@5/dist/echarts.min.js"></script>
    <script src="https://cdn.jsdelivr.net/npm/echarts-wordcloud@2/dist/echarts-wordcloud.min.js"></script>
    <style>
        body { font-family: 'Microsoft YaHei', sans-serif; background: #f0f2f5; margin: 0; padding: 20px; }
        .header { text-align: center; margin-bottom: 20px; }
        .header h1 { color: #1a1a2e; font-size: 28px; margin: 0; }
        .header p { color: #666; font-size: 14px; margin: 4px 0 0 0; }
        .container { display: flex; flex-wrap: wrap; justify-content: center; gap: 24px; max-width: 1300px; margin: 0 auto; }
        .chart-box {
            background: white;
            border-radius: 12px;
            box-shadow: 0 4px 16px rgba(0,0,0,0.08);
            padding: 24px;
            flex: 1 1 560px;
            max-width: 640px;
            min-width: 400px;
        }
        .chart-box h2 {
            text-align: center;
            margin: 0 0 16px 0;
            color: #333;
            font-size: 18px;
            border-bottom: 2px solid #5470c6;
            padding-bottom: 8px;
        }
        .chart { width: 100%; height: 400px; }
    </style>
</head>
<body>
    <div class="header">
        <h1>📊 歌词词频分析</h1>
        <p>基于 ECharts 的词频可视化</p>
    </div>
    <div class="container">
        <div class="chart-box">
            <h2>词云</h2>
            <div id="wordcloud" class="chart"></div>
        </div>
        <div class="chart-box">
            <h2>高频词柱状图</h2>
            <div id="bar" class="chart"></div>
        </div>
    </div>
    <script>
        const cloudData = "#;

/// The page between the word-cloud data and the bar-chart words.
pub const PAGE_AFTER_CLOUD: &'static str = r#";
        const cloudChart = echarts.init(document.getElementById('wordcloud'));
        cloudChart.setOption({
            series: [{
                type: 'wordCloud',
                gridSize: 8,
                sizeRange: [14, 65],
                rotationRange: [-90, 90],
                rotationStep: 45,
                shape: 'circle',
                width: '90%',
                height: '90%',
                left: 'center',
                top: 'center',
                textStyle: {
                    fontFamily: 'Microsoft YaHei, sans-serif',
                    fontWeight: 'bold',
                    color: function () {
                        return 'rgb(' + [
                            Math.round(Math.random() * 120 + 60),
                            Math.round(Math.random() * 120 + 60),
                            Math.round(Math.random() * 120 + 60)
                        ].join(',') + ')';
                    }
                },
                data: cloudData.map(function(item) {
                    return { name: item.name, value: item.value };
                })
            }]
        });

        const barChart = echarts.init(document.getElementById('bar'));
        barChart.setOption({
            tooltip: {
                trigger: 'axis',
                axisPointer: { type: 'shadow' }
            },
            grid: {
                left: '8%',
                right: '8%',
                top: '5%',
                bottom: '15%'
            },
            xAxis: {
                type: 'category',
                data: "#;

/// The page between the bar-chart words and their counts.
pub const PAGE_AFTER_WORDS: &'static str = r#",
                axisLabel: {
                    interval: 0,
                    rotate: 0,
                    fontSize: 11,
                    formatter: function (value) {
                        return value.length > 4
                            ? value.substring(0, 4) + '\\n' + value.substring(4)
                            : value;
                    }
                }
            },
            yAxis: {
                type: 'value',
                name: '出现次数',
                nameTextStyle: { fontSize: 12 }
            },
            series: [{
                name: '词频',
                type: 'bar',
                data: "#;

/// The page after the bar-chart counts.
pub const PAGE_TAIL: &'static str = r#",
                barWidth: '50%',
                itemStyle: {
                    color: new echarts.graphic.LinearGradient(0, 0, 0, 1, [
                        { offset: 0, color: '#667eea' },
                        { offset: 1, color: '#5470c6' }
                    ]),
                    borderRadius: [4, 4, 0, 0]
                }
            }]
        });

        window.addEventListener('resize', function() {
            cloudChart.resize();
            barChart.resize();
        });
    </script>
</body>
</html>
"#;

/// Lower-case hexadecimal digit of `n` (0 to 15).
pub open spec fn hex_digit(n: int) -> char {
    seq!['0', '1', '2', '3', '4', '5', '6', '7', '8', '9', 'a', 'b', 'c', 'd', 'e', 'f'][n]
}

/// Decimal digit of `n` (0 to 9).
pub open spec fn decimal_digit(n: int) -> char {
    seq!['0', '1', '2', '3', '4', '5', '6', '7', '8', '9'][n]
}

/// How a character is written inside a JSON string: `"` and `\` and the
/// control characters below U+0020 are escaped (the short forms where JSON
/// has them, `\u00XX` otherwise); every other character stands as it is.
pub open spec fn json_escape_char(c: char) -> Seq<char> {
    if c == '"' {
        seq!['\\', '"']
    } else if c == '\\' {
        seq!['\\', '\\']
    } else if c == '\u{8}' {
        seq!['\\', 'b']
    } else if c == '\t' {
        seq!['\\', 't']
    } else if c == '\n' {
        seq!['\\', 'n']
    } else if c == '\u{c}' {
        seq!['\\', 'f']
    } else if c == '\r' {
        seq!['\\', 'r']
    } else if (c as u32) < 0x20 {
        seq!['\\', 'u', '0', '0', hex_digit((c as int) / 16), hex_digit((c as int) % 16)]
    } else {
        seq![c]
    }
}

/// The characters of `s`, each escaped for a JSON string.
pub open spec fn json_escaped(s: Seq<char>) -> Seq<char>
    decreases s.len(),
{
    if s.len() == 0 {
        Seq::empty()
    } else {
        json_escaped(s.drop_last()) + json_escape_char(s.last())
    }
}

/// The JSON string literal for `s`.
pub open spec fn json_string(s: Seq<char>) -> Seq<char> {
    seq!['"'] + json_escaped(s) + seq!['"']
}

/// The decimal numeral for `n`, without leading zeros.
pub open spec fn decimal(n: nat) -> Seq<char>
    decreases n,
{
    if n < 10 {
        seq![decimal_digit(n as int)]
    } else {
        decimal(n / 10).push(decimal_digit((n % 10) as int))
    }
}

/// The value of a digit character.
pub open spec fn digit_value(c: char) -> int {
    (c as int) - ('0' as int)
}

/// The number that a string of decimal digits denotes.
pub open spec fn numeral_value(d: Seq<char>) -> int
    decreases d.len(),
{
    if d.len() == 0 {
        0
    } else {
        numeral_value(d.drop_last()) * 10 + digit_value(d.last())
    }
}

/// Each digit character has its value, and is not `'0'` unless the value
/// is 0.
proof fn lemma_digit_value(d: int)
    requires
        0 <= d < 10,
    ensures
        digit_value(decimal_digit(d)) == d,
        '0' <= decimal_digit(d) <= '9',
        decimal_digit(d) == '0' ==> d == 0,
{
    assert(('0' as int) == 48);
    assert(('9' as int) == 57);
    if d == 0 {
    } else if d == 1 {
        assert(('1' as int) == 49);
    } else if d == 2 {
        assert(('2' as int) == 50);
    } else if d == 3 {
        assert(('3' as int) == 51);
    } else if d == 4 {
        assert(('4' as int) == 52);
    } else if d == 5 {
        assert(('5' as int) == 53);
    } else if d == 6 {
        assert(('6' as int) == 54);
    } else if d == 7 {
        assert(('7' as int) == 55);
    } else if d == 8 {
        assert(('8' as int) == 56);
    } else {
    }
}

/// `decimal(n)` is the base-ten numeral of `n`: it consists of digits only,
/// reads back as `n`, and has no leading zero (but for `n == 0` itself).
pub proof fn law_decimal_is_base_ten_numeral(n: nat)
    ensures
        decimal(n).len() >= 1,
        forall|i: int| 0 <= i < decimal(n).len() ==> '0' <= #[trigger] decimal(n)[i] <= '9',
        numeral_value(decimal(n)) == n,
        decimal(n)[0] == '0' ==> n == 0,
    decreases n,
{
    if n < 10 {
        lemma_digit_value(n as int);
        assert(decimal(n).drop_last() =~= Seq::<char>::empty());
        assert(numeral_value(decimal(n).drop_last()) == 0);
        assert(decimal(n).last() == decimal_digit(n as int));
    } else {
        let m = n / 10;
        let d = n % 10;
        law_decimal_is_base_ten_numeral(m);
        lemma_digit_value(d as int);
        assert(decimal(n).drop_last() =~= decimal(m));
        assert(decimal(n).last() == decimal_digit(d as int));
        assert(numeral_value(decimal(n)) == numeral_value(decimal(m)) * 10 + d);
        assert(decimal(n)[0] == decimal(m)[0]);
        assert forall|i: int| 0 <= i < decimal(n).len() implies '0' <= #[trigger] decimal(n)[i] <= '9' by {
            if i < decimal(m).len() {
                assert(decimal(n)[i] == decimal(m)[i]);
            }
        }
    }
}

/// `items` separated by commas.
pub open spec fn comma_joined(items: Seq<Seq<char>>) -> Seq<char>
    decreases items.len(),
{
    if items.len() == 0 {
        Seq::empty()
    } else if items.len() == 1 {
        items[0]
    } else {
        comma_joined(items.drop_last()) + seq![','] + items.last()
    }
}

/// A compact JSON array whose elements are written as `items`.
pub open spec fn json_array(items: Seq<Seq<char>>) -> Seq<char> {
    seq!['['] + comma_joined(items) + seq![']']
}

/// The word-cloud datum for one entry: `{"name":<word>,"value":<count>}`.
pub open spec fn cloud_item(e: (Seq<char>, int)) -> Seq<char> {
    seq!['{', '"', 'n', 'a', 'm', 'e', '"', ':'] + json_string(e.0) + seq![
        ',',
        '"',
        'v',
        'a',
        'l',
        'u',
        'e',
        '"',
        ':',
    ] + decimal(e.1 as nat) + seq!['}']
}

/// JSON array of the word-cloud data of `r`.
pub open spec fn cloud_json(r: Seq<(Seq<char>, int)>) -> Seq<char> {
    json_array(r.map_values(|e: (Seq<char>, int)| cloud_item(e)))
}

/// JSON array of the words of `r`.
pub open spec fn words_json(r: Seq<(Seq<char>, int)>) -> Seq<char> {
    json_array(r.map_values(|e: (Seq<char>, int)| json_string(e.0)))
}

/// JSON array of the counts of `r`.
pub open spec fn counts_json(r: Seq<(Seq<char>, int)>) -> Seq<char> {
    json_array(r.map_values(|e: (Seq<char>, int)| decimal(e.1 as nat)))
}

/// The first `n` entries of `r`, or all of them when there are fewer.
pub open spec fn first_n(r: Seq<(Seq<char>, int)>, n: int) -> Seq<(Seq<char>, int)> {
    if r.len() <= n {
        r
    } else {
        r.take(n)
    }
}

/// The word-cloud page for the ranking `r`: the cloud shows its first
/// `CLOUD_WORDS` entries, the bar chart its first `BAR_WORDS`.
pub open spec fn wordcloud_page(r: Seq<(Seq<char>, int)>) -> Seq<char> {
    PAGE_HEAD@ + cloud_json(first_n(r, CLOUD_WORDS as int)) + PAGE_AFTER_CLOUD@ + words_json(
        first_n(r, BAR_WORDS as int),
    ) + PAGE_AFTER_WORDS@ + counts_json(first_n(r, BAR_WORDS as int)) + PAGE_TAIL@
}

/// Declares `serde_json::Error` to the verifier.
#[verifier::external_type_specification]
#[verifier::external_body]
pub struct ExJsonError(serde_json::Error);

/// `serde_json::to_string` on a string slice: the JSON string literal for
/// `s`.
///
/// Trusted: the call succeeds, and the text is `json_string(s@)`, the
/// quoted string with `"`, `\` and the control characters below U+0020
/// escaped. Both are what the crate's source shows: a `str` is written by
/// `format_escaped_str` into a `Vec<u8>`, whose writes never fail, with the
/// escape table `ESCAPE` and the escape forms of `write_char_escape` of the
/// compact formatter (lower-case hexadecimal digits in `\u00XX`).
#[verifier::external_body]
fn json_string_literal(s: &str) -> (res: Result<String, serde_json::Error>)
    ensures
        res is Ok,
        res matches Ok(t) ==> t@ == json_string(s@),
{
    serde_json::to_string(s)
}

/// Appends the JSON string literal for `s`.
fn push_json_string(out: &mut String, s: &str)
    ensures
        final(out)@ == old(out)@ + json_string(s@),
{
    match json_string_literal(s) {
        Ok(t) => {
            out.append(t.as_str());
        },
        Err(_) => {},
    }
}

/// The digit character for `d`.
fn digit_char(d: usize) -> (c: char)
    requires
        d < 10,
    ensures
        c == decimal_digit(d as int),
{
    match d {
        0 => '0',
        1 => '1',
        2 => '2',
        3 => '3',
        4 => '4',
        5 => '5',
        6 => '6',
        7 => '7',
        8 => '8',
        _ => '9',
    }
}

/// Appends the decimal numeral for `n`.
pub fn push_decimal(out: &mut String, n: usize)
    ensures
        final(out)@ == old(out)@ + decimal(n as nat),
    decreases n,
{
    if n >= 10 {
        push_decimal(out, n / 10);
    }
    push_char(out, digit_char(n % 10));
    proof {
        assert(old(out)@ + decimal(n as nat) =~= (if n >= 10 { old(out)@ + decimal((n / 10) as nat) } else { old(out)@ }).push(decimal_digit((n % 10) as int)));
    }
}

/// One more item of a comma-separated list.
proof fn lemma_comma_joined_step(items: Seq<Seq<char>>, i: int)
    requires
        0 <= i < items.len(),
    ensures
        comma_joined(items.take(i + 1)) == if i == 0 {
            items[0]
        } else {
            comma_joined(items.take(i)) + seq![','] + items[i]
        },
{
    assert(items.take(i + 1).drop_last() =~= items.take(i));
}

/// Appends the JSON array of the word-cloud data of `entries`.
fn push_cloud_json(out: &mut String, entries: &Vec<(String, usize)>)
    ensures
        final(out)@ == old(out)@ + cloud_json(table_view(entries@)),
{
    let ghost items = table_view(entries@).map_values(|e: (Seq<char>, int)| cloud_item(e));
    let ghost start = out@;
    let n = entries.len();
    push_char(out, '[');
    let mut i: usize = 0;
    proof {
        assert(items.take(0) =~= Seq::<Seq<char>>::empty());
    }
    while i < n
        invariant
            n == entries@.len(),
            items == table_view(entries@).map_values(|e: (Seq<char>, int)| cloud_item(e)),
            i <= n,
            out@ == start + seq!['['] + comma_joined(items.take(i as int)),
        decreases n - i,
    {
        let ghost before = out@;
        if i > 0 {
            push_char(out, ',');
        }
        out.append("{\"name\":");
        push_json_string(out, entries[i].0.as_str());
        out.append(",\"value\":");
        push_decimal(out, entries[i].1);
        push_char(out, '}');
        proof {
            reveal_strlit("{\"name\":");
            reveal_strlit(",\"value\":");
            lemma_comma_joined_step(items, i as int);
            assert(items[i as int] == cloud_item((entries@[i as int].0@, entries@[i as int].1 as int)));
            assert(out@ =~= start + seq!['['] + comma_joined(items.take(i + 1)));
        }
        i = i + 1;
    }
    push_char(out, ']');
    proof {
        assert(items.take(n as int) =~= items);
    }
}

/// Appends the JSON array of the words of `entries`.
fn push_words_json(out: &mut String, entries: &Vec<(String, usize)>)
    ensures
        final(out)@ == old(out)@ + words_json(table_view(entries@)),
{
    let ghost items = table_view(entries@).map_values(|e: (Seq<char>, int)| json_string(e.0));
    let ghost start = out@;
    let n = entries.len();
    push_char(out, '[');
    let mut i: usize = 0;
    proof {
        assert(items.take(0) =~= Seq::<Seq<char>>::empty());
    }
    while i < n
        invariant
            n == entries@.len(),
            items == table_view(entries@).map_values(|e: (Seq<char>, int)| json_string(e.0)),
            i <= n,
            out@ == start + seq!['['] + comma_joined(items.take(i as int)),
        decreases n - i,
    {
        if i > 0 {
            push_char(out, ',');
        }
        push_json_string(out, entries[i].0.as_str());
        proof {
            lemma_comma_joined_step(items, i as int);
            assert(items[i as int] == json_string(entries@[i as int].0@));
            assert(out@ =~= start + seq!['['] + comma_joined(items.take(i + 1)));
        }
        i = i + 1;
    }
    push_char(out, ']');
    proof {
        assert(items.take(n as int) =~= items);
    }
}

/// Appends the JSON array of the counts of `entries`.
fn push_counts_json(out: &mut String, entries: &Vec<(String, usize)>)
    ensures
        final(out)@ == old(out)@ + counts_json(table_view(entries@)),
{
    let ghost items = table_view(entries@).map_values(|e: (Seq<char>, int)| decimal(e.1 as nat));
    let ghost start = out@;
    let n = entries.len();
    push_char(out, '[');
    let mut i: usize = 0;
    proof {
        assert(items.take(0) =~= Seq::<Seq<char>>::empty());
    }
    while i < n
        invariant
            n == entries@.len(),
            items == table_view(entries@).map_values(|e: (Seq<char>, int)| decimal(e.1 as nat)),
            i <= n,
            out@ == start + seq!['['] + comma_joined(items.take(i as int)),
        decreases n - i,
    {
        if i > 0 {
            push_char(out, ',');
        }
        push_decimal(out, entries[i].1);
        proof {
            lemma_comma_joined_step(items, i as int);
            assert(items[i as int] == decimal(entries@[i as int].1 as nat));
            assert(out@ =~= start + seq!['['] + comma_joined(items.take(i + 1)));
        }
        i = i + 1;
    }
    push_char(out, ']');
    proof {
        assert(items.take(n as int) =~= items);
    }
}

/// The word-cloud page for an already ranked table.
pub fn html_for_ranking(ranked: &Vec<(String, usize)>) -> (res: String)
    ensures
        res@ == wordcloud_page(table_view(ranked@)),
{
    let cloud = top_entries(ranked, CLOUD_WORDS);
    let bar = top_entries(ranked, BAR_WORDS);
    let mut out = String::new();
    out.append(PAGE_HEAD);
    push_cloud_json(&mut out, &cloud);
    out.append(PAGE_AFTER_CLOUD);
    push_words_json(&mut out, &bar);
    out.append(PAGE_AFTER_WORDS);
    push_counts_json(&mut out, &bar);
    out.append(PAGE_TAIL);
    proof {
        assert(out@ =~= wordcloud_page(table_view(ranked@)));
    }
    out
}

/// The word-cloud page for `word_count`: its entries ranked by decreasing
/// count (see `rank_entries`), the cloud showing the first `CLOUD_WORDS`,
/// the bar chart the first `BAR_WORDS` words with their counts.
pub fn render_wordcloud_html(word_count: &WordCounts) -> (res: String)
    ensures
        exists|r: Seq<(Seq<char>, int)>| is_stable_ranking(r, word_count@),
        forall|r: Seq<(Seq<char>, int)>| is_stable_ranking(r, word_count@) ==> res@ == wordcloud_page(r),
{
    let ranked = rank_entries(word_count);
    let res = html_for_ranking(&ranked);
    proof {
        assert forall|r: Seq<(Seq<char>, int)>| is_stable_ranking(r, word_count@) implies res@ == wordcloud_page(r) by {
            law_ranking_is_unique(r, table_view(ranked@), word_count@);
        }
    }
    res
}

/// Two tables with the same entries, in any order, in which no two words
/// share a count, give the same word-cloud page.
pub proof fn law_page_ignores_table_order(
    r1: Seq<(Seq<char>, int)>,
    e1: Seq<(Seq<char>, int)>,
    r2: Seq<(Seq<char>, int)>,
    e2: Seq<(Seq<char>, int)>,
)
    requires
        counts_distinct(e1),
        counts_distinct(e2),
        forall|x: (Seq<char>, int)| e1.contains(x) <==> e2.contains(x),
        is_stable_ranking(r1, e1),
        is_stable_ranking(r2, e2),
    ensures
        wordcloud_page(r1) == wordcloud_page(r2),
{
    law_ranking_ignores_table_order(r1, e1, r2, e2);
}

} // verus!
