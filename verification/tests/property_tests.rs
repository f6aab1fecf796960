use chat_parts::part::parse;
use chat_parts::part::Extras;
use chat_parts::part::PartKind;

fn no_vocab() -> Extras {
    Extras { emotes: vec![], names: vec![] }
}

#[test]
fn empty_input_yields_no_segments() {
    let parts = parse("", no_vocab());
    assert_eq!(parts.len(), 0);
}

#[test]
fn coverage_concatenation_reconstructs_input() {
    let input = "Hello ```code``` @bob https://example.com/x?y=z \u{2764} end";
    let parts = parse(input, Extras { names: vec!["bob".to_string()], emotes: vec![] });
    let mut rebuilt = String::new();
    for p in &parts {
        rebuilt.push_str(p.str);
    }
    assert_eq!(rebuilt, input);
}

#[test]
fn coverage_spans_tile_the_source() {
    let input = "a `b` c @d e";
    let parts = parse(input, no_vocab());
    let mut at: usize = 0;
    for p in &parts {
        assert_eq!(p.span.0, at);
        assert!(p.span.0 < p.span.1);
        at = p.span.1;
    }
    assert_eq!(at, input.chars().count());
}

#[test]
fn no_two_adjacent_text_segments() {
    let input = "one two `code` three four @x five";
    let parts = parse(input, no_vocab());
    for w in parts.windows(2) {
        assert!(!(w[0].kind == PartKind::Text && w[1].kind == PartKind::Text));
    }
}

#[test]
fn unknown_mention_degrades_to_text() {
    let parts = parse("@nobody", no_vocab());
    assert_eq!(parts.len(), 1);
    assert_eq!(parts[0].kind, PartKind::Text);
    assert_eq!(parts[0].str, "@nobody");
}

#[test]
fn known_mention_is_accepted() {
    let parts = parse("@bob", Extras { names: vec!["bob".to_string()], emotes: vec![] });
    assert_eq!(parts.len(), 1);
    assert_eq!(parts[0].kind, PartKind::Mention);
    assert_eq!(parts[0].str, "@bob");
}

#[test]
fn mention_with_trailing_punctuation_is_text() {
    let parts = parse("@bob!", Extras { names: vec!["bob".to_string()], emotes: vec![] });
    assert_eq!(parts.len(), 1);
    assert_eq!(parts[0].kind, PartKind::Text);
    assert_eq!(parts[0].str, "@bob!");
}

#[test]
fn unterminated_fence_degrades_to_text() {
    let parts = parse("``` x", no_vocab());
    assert_eq!(parts.len(), 1);
    assert_eq!(parts[0].kind, PartKind::Text);
    assert_eq!(parts[0].str, "``` x");
}

#[test]
fn colon_alone_is_not_a_url() {
    let parts = parse(":-)", no_vocab());
    assert_eq!(parts.len(), 1);
    assert_eq!(parts[0].kind, PartKind::Text);
    assert_eq!(parts[0].str, ":-)");
}

#[test]
fn url_upgrade_applies_only_to_text() {
    let parts = parse("`https://example.com`", no_vocab());
    assert_eq!(parts.len(), 1);
    assert_eq!(parts[0].kind, PartKind::Code);
    assert_eq!(parts[0].str, "`https://example.com`");
}

#[test]
fn url_with_query_splits_at_whitespace() {
    let parts = parse("https://example.com/a?b=c not sure", no_vocab());
    assert_eq!(parts.len(), 2);
    assert_eq!(parts[0].kind, PartKind::Url);
    assert_eq!(parts[0].str, "https://example.com/a?b=c");
    assert_eq!(parts[1].kind, PartKind::Text);
    assert_eq!(parts[1].str, " not sure");
}

#[test]
fn emote_overrides_code_classification() {
    let parts = parse("`x`", Extras { emotes: vec!["`x`".to_string()], names: vec![] });
    assert_eq!(parts.len(), 1);
    assert_eq!(parts[0].kind, PartKind::Emote);
    assert_eq!(parts[0].str, "`x`");
}

#[test]
fn single_character_emote_is_recognized() {
    let parts = parse("\u{2764}", Extras { emotes: vec!["\u{2764}".to_string()], names: vec![] });
    assert_eq!(parts.len(), 1);
    assert_eq!(parts[0].kind, PartKind::Emote);
    assert_eq!(parts[0].str, "\u{2764}");
}

#[test]
fn greeting_with_known_name_splits_in_two() {
    let parts = parse("hey @bob", Extras { names: vec!["bob".to_string()], emotes: vec![] });
    assert_eq!(parts.len(), 2);
    assert_eq!(parts[0].kind, PartKind::Text);
    assert_eq!(parts[0].str, "hey ");
    assert_eq!(parts[1].kind, PartKind::Mention);
    assert_eq!(parts[1].str, "@bob");
}

#[test]
fn reparsing_a_text_segment_is_idempotent() {
    let inputs = [
        "test ` one \u{f0} two",
        "go `x` stop @y https://example.com end \u{f0}",
    ];
    let mut seen_text = 0;
    for input in inputs {
        for p in parse(input, no_vocab()) {
            if p.kind == PartKind::Text {
                seen_text += 1;
                let again = parse(p.str, no_vocab());
                assert_eq!(again.len(), 1);
                assert_eq!(again[0].kind, PartKind::Text);
                assert_eq!(again[0].str, p.str);
            }
        }
    }
    assert!(seen_text >= 4);
}
