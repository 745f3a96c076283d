use microgpt::text::{encode, parse_docs, trim_chars, vocabulary, white_space};

fn chars(s: &str) -> Vec<char> {
    s.chars().collect()
}

fn reference_docs(text: &str) -> Vec<Vec<char>> {
    text.lines()
        .map(|x| x.trim().to_string())
        .filter(|x| !x.is_empty())
        .map(|x| x.chars().collect())
        .collect()
}

#[test]
fn white_space_matches_std() {
    for code in 0u32..0x110000 {
        if let Some(c) = char::from_u32(code) {
            assert_eq!(white_space(c), c.is_whitespace(), "code point {:x}", code);
        }
    }
}

#[test]
fn trim_chars_matches_str_trim() {
    for s in ["", "   ", "a", "  ab c \t", "\u{3000}x\u{a0}", "\r\n", "x\r"] {
        assert_eq!(trim_chars(&chars(s)), chars(s.trim()));
    }
}

#[test]
fn parse_docs_trims_and_drops_blank_lines() {
    let text = "  alice \r\nbob\n\n  \ncarol";
    assert_eq!(parse_docs(&chars(text)), vec![chars("alice"), chars("bob"), chars("carol")]);
}

#[test]
fn parse_docs_matches_lines_trim_filter() {
    for text in ["", "\n", "a\n", "a\n\n", "\n\nb", " x y \n\t\n z", "one\r\ntwo\r\n", "\u{2028}q\u{2028}\nr"] {
        assert_eq!(parse_docs(&chars(text)), reference_docs(text));
    }
}

#[test]
fn vocabulary_is_sorted_and_unique() {
    let docs = vec![chars("emma"), chars("olivia"), chars("ava")];
    assert_eq!(vocabulary(&docs), chars("aeilmov"));
    let empty: Vec<Vec<char>> = Vec::new();
    assert!(vocabulary(&empty).is_empty());
}

#[test]
fn encode_wraps_with_boundary_tokens() {
    let vocab = chars("aeilmov");
    let tokens = encode(&chars("emma"), &vocab);
    assert_eq!(tokens, vec![7, 1, 4, 4, 0, 7]);
    assert_eq!(encode(&Vec::new(), &vocab), vec![7, 7]);
}

#[test]
fn encode_then_decode_round_trips() {
    let docs = vec![chars("zoe"), chars("liam"), chars("noah")];
    let vocab = vocabulary(&docs);
    for doc in &docs {
        let tokens = encode(doc, &vocab);
        let decoded: Vec<char> = tokens[1..tokens.len() - 1].iter().map(|&t| vocab[t]).collect();
        assert_eq!(&decoded, doc);
    }
}
