use ginkou::extract::extract_roots;
use ginkou::extract::ExtractError;
use ginkou::pipeline::consume_sentences;
use ginkou::pipeline::consume_trimmed;
use ginkou::pipeline::IngestError;
use ginkou::pipeline::Tokenizer;
use ginkou::store::Store;

fn analysis_neko_wo_mita() -> String {
    [
        "猫\t名詞,一般,*,*,*,*,猫,ネコ,ネコ",
        "を\t助詞,格助詞,*,*,*,*,を,ヲ,ヲ",
        "見\t動詞,自立,*,*,*,*,見る,ミ,ミ",
        "た\t助動詞,*,*,*,*,*,た,タ,タ",
        "EOS",
    ]
    .join("\n")
}

fn analysis_inu_wo_miru() -> String {
    [
        "犬\t名詞,一般,*,*,*,*,犬,イヌ,イヌ",
        "を\t助詞,格助詞,*,*,*,*,を,ヲ,ヲ",
        "見る\t動詞,自立,*,*,*,*,見る,ミル,ミル",
        "EOS",
    ]
    .join("\n")
}

#[test]
fn sentences_can_be_consumed() {
    let mut conn = Store::new();
    let sentence1 = "猫を見た";
    let sentence2 = "犬を見る";
    consume_trimmed(&mut conn, sentence1, &analysis_neko_wo_mita()).unwrap();
    consume_trimmed(&mut conn, sentence2, &analysis_inu_wo_miru()).unwrap();
    let a_sentences: Vec<String> = vec![sentence1.into(), sentence2.into()];
    assert_eq!(a_sentences, conn.matching_word("見る"));
    let b_sentences: Vec<String> = vec![sentence2.into()];
    assert_eq!(b_sentences, conn.matching_word("犬"));
    let c_sentences: Vec<String> = vec![sentence1.into()];
    assert_eq!(c_sentences, conn.matching_word("猫"));
}

#[test]
fn extract_roots_reads_the_seventh_field() {
    let roots = extract_roots(&analysis_neko_wo_mita()).unwrap();
    let expected: Vec<String> = vec!["猫".into(), "を".into(), "見る".into(), "た".into()];
    assert_eq!(expected, roots);
}

#[test]
fn extract_roots_keeps_duplicates_in_order() {
    let analysis = ["A\ta,b,c,d,e,f,r1", "B\ta,b,c,d,e,f,r1", "EOS"].join("\n");
    let expected: Vec<String> = vec!["r1".into(), "r1".into()];
    assert_eq!(expected, extract_roots(&analysis).unwrap());
}

#[test]
fn extract_roots_refuses_a_line_without_tab() {
    let analysis = ["A\ta,b,c,d,e,f,g", "no tab here", "EOS"].join("\n");
    assert_eq!(Err(ExtractError::MalformedLine), extract_roots(&analysis));
}

#[test]
fn extract_roots_refuses_too_few_fields() {
    let analysis = "A\ta,b,c\nEOS";
    assert_eq!(Err(ExtractError::MalformedLine), extract_roots(analysis));
}

#[test]
fn extract_roots_refuses_empty_output() {
    assert_eq!(Err(ExtractError::NoTokens), extract_roots(""));
    assert_eq!(Err(ExtractError::NoTokens), extract_roots("EOS"));
    assert_eq!(Err(ExtractError::NoTokens), extract_roots("EOS\n"));
}

#[test]
fn extract_roots_stops_at_end_marker() {
    let analysis = ["A\ta,b,c,d,e,f,g", "EOS", "garbage after the marker"].join("\n");
    let expected: Vec<String> = vec!["g".into()];
    assert_eq!(expected, extract_roots(&analysis).unwrap());
}

#[test]
fn failed_ingestion_leaves_store_untouched() {
    let mut store = Store::new();
    let r = consume_trimmed(&mut store, "A", "malformed");
    assert_eq!(Err(ExtractError::MalformedLine), r);
    assert_eq!(Vec::<String>::new(), store.matching_word("A"));
}

struct ScriptedTokenizer;

impl Tokenizer for ScriptedTokenizer {
    fn tokenize(&mut self, sentence: &str) -> Option<String> {
        match sentence {
            "猫を見た。" => Some(
                [
                    "猫\t名詞,一般,*,*,*,*,猫,ネコ,ネコ",
                    "を\t助詞,格助詞,*,*,*,*,を,ヲ,ヲ",
                    "見\t動詞,自立,*,*,*,*,見る,ミ,ミ",
                    "た\t助動詞,*,*,*,*,*,た,タ,タ",
                    "。\t記号,句点,*,*,*,*,。,。,。",
                    "EOS",
                ]
                .join("\n"),
            ),
            "犬を見る。" => Some(
                [
                    "犬\t名詞,一般,*,*,*,*,犬,イヌ,イヌ",
                    "を\t助詞,格助詞,*,*,*,*,を,ヲ,ヲ",
                    "見る\t動詞,自立,*,*,*,*,見る,ミル,ミル",
                    "。\t記号,句点,*,*,*,*,。,。,。",
                    "EOS",
                ]
                .join("\n"),
            ),
            _ => None,
        }
    }
}

#[test]
fn ingestion_round_trip_returns_texts_verbatim() {
    let mut store = Store::new();
    let input = "猫を見た。\n犬を見る。".as_bytes().to_vec();
    let mut tok = ScriptedTokenizer;
    consume_sentences(&mut store, input, &mut tok).unwrap();
    // The shared root stands in both sentences.
    let shared: Vec<String> = vec!["猫を見た。".into(), "犬を見る。".into()];
    assert_eq!(shared, store.matching_word("見る"));
    assert_eq!(shared, store.matching_word("を"));
    // A root unique to one sentence returns that sentence alone.
    let first_only: Vec<String> = vec!["猫を見た。".into()];
    assert_eq!(first_only, store.matching_word("猫"));
    let second_only: Vec<String> = vec!["犬を見る。".into()];
    assert_eq!(second_only, store.matching_word("犬"));
}

#[test]
fn decode_failures_are_skipped_not_fatal() {
    let mut store = Store::new();
    let mut input: Vec<u8> = vec![0xFF];
    input.extend_from_slice("。猫を見た。".as_bytes());
    let mut tok = ScriptedTokenizer;
    consume_sentences(&mut store, input, &mut tok).unwrap();
    let stored: Vec<String> = vec!["猫を見た。".into()];
    assert_eq!(stored, store.matching_word("猫"));
}

struct BrokenTokenizer;

impl Tokenizer for BrokenTokenizer {
    fn tokenize(&mut self, _sentence: &str) -> Option<String> {
        Some(String::from("line without a tab\nEOS"))
    }
}

#[test]
fn malformed_analysis_aborts_ingestion() {
    let mut store = Store::new();
    let input = "A。".as_bytes().to_vec();
    let mut tok = BrokenTokenizer;
    assert_eq!(
        Err(IngestError::Extract(ExtractError::MalformedLine)),
        consume_sentences(&mut store, input, &mut tok)
    );
}

#[test]
fn stream_without_units_succeeds_untouched() {
    let mut store = Store::new();
    let input = "no delimiter at all".as_bytes().to_vec();
    let mut tok = BrokenTokenizer;
    assert_eq!(Ok(()), consume_sentences(&mut store, input, &mut tok));
    assert_eq!(Vec::<String>::new(), store.matching_word("no"));
}

#[test]
fn stream_of_only_decode_errors_succeeds() {
    let mut store = Store::new();
    // One unit, and its bytes are not valid UTF-8: skipped, and the pass
    // still succeeds.
    let input: Vec<u8> = vec![0xFF, 0xE3, 0x80, 0x82];
    let mut tok = BrokenTokenizer;
    assert_eq!(Ok(()), consume_sentences(&mut store, input, &mut tok));
}

#[test]
fn tokenizer_failure_aborts_ingestion() {
    let mut store = Store::new();
    let input = "知らない文。".as_bytes().to_vec();
    let mut tok = ScriptedTokenizer;
    assert_eq!(
        Err(IngestError::Tokenizer),
        consume_sentences(&mut store, input, &mut tok)
    );
}
