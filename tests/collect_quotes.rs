use collect_quotes::{process_string, CollectQuotes, QuotesStates, Utf8Decoder};

fn spans_of(text: &str) -> Vec<String> {
    process_string(text.to_string()).saved
}

#[test]
fn test_right_quote() {
    let dfa = CollectQuotes::new();

    assert_eq!(dfa.is_right_quote("\""), true);
    assert_eq!(dfa.is_right_quote("”"), true);
}

#[test]
fn test_left_quote() {
    let dfa = CollectQuotes::new();
    let left_quotes = vec!["\"".to_string(), "“".to_string()];

    for item in left_quotes.iter() {
        assert_eq!(dfa.is_left_quote(item.as_str()), true);
    }
}

#[test]
fn test_process_string_with_english() {
    let test_string = "Marcus said, \"Yo! Have you eaten? \". I replied, \"Not yet. I am currently looking for food now. How about you?\"".to_string();

    let dfa = process_string(test_string);

    assert_eq!("\"Yo! Have you eaten? \"".to_string(), dfa.saved[0]);
    assert_eq!(
        "\"Not yet. I am currently looking for food now. How about you?\"".to_string(),
        dfa.saved[1]
    );
}

#[test]
fn test_process_string_with_chinese() {
    let test_string = "老杜问了我，“你吃了马？”。我回了， “没有阿。你呢？”。".to_string();

    let dfa = process_string(test_string);

    assert_eq!("“你吃了马？”".to_string(), dfa.saved[0]);
    assert_eq!("“没有阿。你呢？”".to_string(), dfa.saved[1]);
}

#[test]
fn marks_of_the_other_direction_are_not_classified() {
    let dfa = CollectQuotes::new();
    assert!(!dfa.is_left_quote("”"));
    assert!(!dfa.is_right_quote("“"));
    assert!(!dfa.is_left_quote("a"));
    assert!(!dfa.is_right_quote(""));
    assert!(!dfa.is_left_quote("\"\""));
    assert!(!dfa.is_right_quote("”x"));
}

#[test]
fn english_scenario_has_exactly_two_spans() {
    let spans = spans_of("Marcus said, \"Yo! Have you eaten? \". I replied, \"Not yet. I am currently looking for food now. How about you?\"");
    assert_eq!(
        spans,
        vec![
            "\"Yo! Have you eaten? \"".to_string(),
            "\"Not yet. I am currently looking for food now. How about you?\"".to_string(),
        ]
    );
}

#[test]
fn directional_scenario_has_exactly_two_spans() {
    let spans = spans_of("老杜问了我，“你吃了马？”。我回了，“没有阿。你呢？”。");
    assert_eq!(
        spans,
        vec!["“你吃了马？”".to_string(), "“没有阿。你呢？”".to_string()]
    );
}

#[test]
fn empty_input_gives_no_spans() {
    let dfa = process_string(String::new());
    assert!(dfa.saved.is_empty());
    assert_eq!(dfa.state, QuotesStates::Ignore);
    assert!(dfa.buffer.is_empty());
    assert!(dfa.decoder.pending.is_empty());
}

#[test]
fn unterminated_quote_is_not_reported() {
    let dfa = process_string("first \"done\" then \"never closed".to_string());
    assert_eq!(dfa.saved, vec!["\"done\"".to_string()]);
    assert_eq!(dfa.state, QuotesStates::LeftQuote);
    assert_eq!(dfa.buffer, "\"never closed".to_string());
}

#[test]
fn solitary_straight_quote_stays_open() {
    let dfa = process_string("\"".to_string());
    assert_eq!(dfa.state, QuotesStates::LeftQuote);
    assert_eq!(dfa.buffer, "\"".to_string());
    assert!(dfa.saved.is_empty());
}

#[test]
fn one_span_per_closing_mark_when_balanced() {
    let spans = spans_of("“a” and \"b\" then “c\" end");
    assert_eq!(spans.len(), 3);
    assert_eq!(
        spans,
        vec!["“a”".to_string(), "\"b\"".to_string(), "“c\"".to_string()]
    );
}

#[test]
fn every_span_is_delimited_by_marks() {
    let spans = spans_of("x ” “one “two” three” \"four\"\"five\" ” six “");
    assert!(!spans.is_empty());
    for span in spans.iter() {
        let chars: Vec<char> = span.chars().collect();
        assert!(chars.len() >= 2);
        assert!(chars[0] == '"' || chars[0] == '“');
        let last = chars[chars.len() - 1];
        assert!(last == '"' || last == '”');
    }
}

#[test]
fn nested_opening_mark_is_literal() {
    let spans = spans_of("“a “b” c”");
    assert_eq!(spans, vec!["“a “b”".to_string()]);
}

#[test]
fn adjacent_straight_quotes_open_a_new_span() {
    assert_eq!(
        spans_of("\"a\"\"b\""),
        vec!["\"a\"".to_string(), "\"b\"".to_string()]
    );
}

#[test]
fn closing_mark_outside_a_quote_is_ignored() {
    let dfa = process_string("” plain".to_string());
    assert!(dfa.saved.is_empty());
    assert_eq!(dfa.state, QuotesStates::Ignore);
}

#[test]
fn just_closed_then_other_character_goes_outside() {
    let mut dfa = CollectQuotes::new();
    dfa.process("“");
    dfa.process("x");
    dfa.process("”");
    assert_eq!(dfa.state, QuotesStates::RightQuote);
    assert!(dfa.buffer.is_empty());
    dfa.process(" ");
    assert_eq!(dfa.state, QuotesStates::Ignore);
    dfa.process("”");
    assert_eq!(dfa.state, QuotesStates::Ignore);
    assert_eq!(dfa.saved, vec!["“x”".to_string()]);
}

#[test]
fn decoder_rebuilds_characters_byte_by_byte() {
    let text = "a“é你😀”";
    let mut decoder = Utf8Decoder::new();
    let mut out: Vec<String> = Vec::new();
    for b in text.as_bytes() {
        if let Some(s) = decoder.feed(*b) {
            out.push(s);
        }
    }
    let expected: Vec<String> = text.chars().map(|c| c.to_string()).collect();
    assert_eq!(out, expected);
    assert!(decoder.pending.is_empty());
}

#[test]
fn decoder_holds_partial_sequence() {
    let bytes = "你".as_bytes();
    let mut decoder = Utf8Decoder::new();
    assert_eq!(decoder.feed(bytes[0]), None);
    assert_eq!(decoder.feed(bytes[1]), None);
    assert_eq!(decoder.pending, vec![bytes[0], bytes[1]]);
    assert_eq!(decoder.feed(bytes[2]), Some("你".to_string()));
    assert!(decoder.pending.is_empty());
}

#[test]
fn malformed_byte_keeps_accumulating() {
    let mut dfa = CollectQuotes::new();
    dfa.feed_byte(0xFF);
    dfa.feed_byte(b'"');
    dfa.feed_byte(b'a');
    assert_eq!(dfa.decoder.pending, vec![0xFF, b'"', b'a']);
    assert_eq!(dfa.state, QuotesStates::Ignore);
    assert!(dfa.saved.is_empty());
}

#[test]
fn feed_byte_matches_process_string() {
    let text = "say “hi” and \"bye\"";
    let mut dfa = CollectQuotes::new();
    for b in text.as_bytes() {
        dfa.feed_byte(*b);
    }
    assert_eq!(dfa.saved, process_string(text.to_string()).saved);
    assert_eq!(dfa.saved, vec!["“hi”".to_string(), "\"bye\"".to_string()]);
}

#[test]
fn results_are_stable_between_inputs() {
    let dfa = process_string("\"one\" “two”".to_string());
    let first = dfa.results().clone();
    let second = dfa.results().clone();
    assert_eq!(first, second);
    assert_eq!(first, vec!["\"one\"".to_string(), "“two”".to_string()]);
}
