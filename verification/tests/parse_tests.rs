use chat_parts::part::parse;
use chat_parts::part::Extras;
use chat_parts::part::PartKind;

fn run(input: &str, extras: Extras) -> Vec<(PartKind, String)> {
    parse(input, extras)
        .into_iter()
        .map(|p| (p.kind, p.str.to_string()))
        .collect()
}

fn owned(words: &[&str]) -> Vec<String> {
    words.iter().map(|w| w.to_string()).collect()
}

#[test]
fn simple_code() {
    let message = r#"```let foo = $"bar";```"#;

    let parts = run(message, Extras::default());

    assert_eq!(
        parts,
        vec![(PartKind::Code, r#"```let foo = $"bar";```"#.to_string())]
    );
}

#[test]
fn simple_text() {
    let message = r#"Hello, this is a test!"#;

    let parts = run(message, Extras::default());

    assert_eq!(
        parts,
        vec![(PartKind::Text, "Hello, this is a test!".to_string())]
    );
}

#[test]
fn text_and_code() {
    let message = r#"Hello, ```let x = 3;``` this is a test!"#;

    let parts = run(message, Extras::default());

    assert_eq!(
        parts,
        vec![
            (PartKind::Text, "Hello, ".to_string()),
            (PartKind::Code, "```let x = 3;```".to_string()),
            (PartKind::Text, " this is a test!".to_string()),
        ]
    );
}

#[test]
fn twitch_message_to_parts_basic() {
    let actual = run(
        "Hello \u{f0}\u{178}\u{2018}\u{aa} Kappa World!",
        Extras { emotes: owned(&["Kappa"]), ..Default::default() },
    );

    let expected = vec![
        (PartKind::Text, "Hello \u{f0}\u{178}\u{2018}\u{aa} ".to_string()),
        (PartKind::Emote, "Kappa".to_string()),
        (PartKind::Text, " World!".to_string()),
    ];

    assert_eq!(actual, expected);
}

#[test]
fn twitch_message_to_parts_single_backtick() {
    let actual = run("test `", Extras::default());

    let expected = vec![(PartKind::Text, "test `".to_string())];

    assert_eq!(actual, expected);
}

#[test]
fn twitch_message_to_parts_code() {
    let actual = run(
        "Hello `\u{f0}\u{178}\u{2018}\u{aa} Kappa ` World!",
        Extras::default(),
    );

    let expected = vec![
        (PartKind::Text, "Hello ".to_string()),
        (PartKind::Code, "`\u{f0}\u{178}\u{2018}\u{aa} Kappa `".to_string()),
        (PartKind::Text, " World!".to_string()),
    ];

    assert_eq!(actual, expected);
}

#[test]
fn twitch_message_to_parts_code_escaping() {
    let actual = run(
        "Hello `\u{f0}\u{178}\u{2018}\u{aa} Kappa <script> ` World!",
        Extras::default(),
    );

    let expected = vec![
        (PartKind::Text, "Hello ".to_string()),
        (
            PartKind::Code,
            "`\u{f0}\u{178}\u{2018}\u{aa} Kappa <script> `".to_string(),
        ),
        (PartKind::Text, " World!".to_string()),
    ];

    assert_eq!(actual, expected);
}

#[test]
fn twitch_message_to_parts_fenced_code_escaping() {
    let actual = run(
        "Hello ```\u{f0}\u{178}\u{2018}\u{aa} Kappa <script> ``` World!",
        Extras::default(),
    );

    let expected = vec![
        (PartKind::Text, "Hello ".to_string()),
        (
            PartKind::Code,
            "```\u{f0}\u{178}\u{2018}\u{aa} Kappa <script> ```".to_string(),
        ),
        (PartKind::Text, " World!".to_string()),
    ];

    assert_eq!(actual, expected);
}

#[test]
fn twitch_message_to_parts_code_and_emote() {
    let actual = run(
        "Hello `\u{f0}\u{178}\u{2018}\u{aa} Kappa` Kappa World!",
        Extras { emotes: owned(&["Kappa"]), ..Default::default() },
    );

    let expected = vec![
        (PartKind::Text, "Hello ".to_string()),
        (PartKind::Code, "`\u{f0}\u{178}\u{2018}\u{aa} Kappa`".to_string()),
        (PartKind::Text, " ".to_string()),
        (PartKind::Emote, "Kappa".to_string()),
        (PartKind::Text, " World!".to_string()),
    ];

    assert_eq!(actual, expected);
}

#[test]
fn twitch_message_to_parts_emotes() {
    let actual = run(
        "mrhalzClippy LUL mrhalzClippy",
        Extras { emotes: owned(&["mrhalzClippy", "LUL"]), ..Default::default() },
    );

    let expected = vec![
        (PartKind::Emote, "mrhalzClippy".to_string()),
        (PartKind::Text, " ".to_string()),
        (PartKind::Emote, "LUL".to_string()),
        (PartKind::Text, " ".to_string()),
        (PartKind::Emote, "mrhalzClippy".to_string()),
    ];

    assert_eq!(actual, expected);
}

#[test]
fn twitch_message_to_parts_subscriber_emotes() {
    let actual = run(
        "breade3Box icedkiSleep idlefaBlankies",
        Extras {
            emotes: owned(&["breade3Box", "icedkiSleep", "idlefaBlankies"]),
            ..Default::default()
        },
    );

    let expected = vec![
        (PartKind::Emote, "breade3Box".to_string()),
        (PartKind::Text, " ".to_string()),
        (PartKind::Emote, "icedkiSleep".to_string()),
        (PartKind::Text, " ".to_string()),
        (PartKind::Emote, "idlefaBlankies".to_string()),
    ];

    assert_eq!(actual, expected);
}

#[test]
fn ascii_emotes() {
    let emotes = vec![
        "8-)", ":(", ":)", ":-(", ":-)", ":-/", ":-D", ":-O", ":-P", ":-Z", ":-", ":-o", ":-p",
        ":-z", ":-|", ":/", ":D", ":O", ":P", ":Z", ":-\\", ":o", ":p", ":z", ":|", ":|", ";)",
        ";)", ";-)", ";-P", ";-p", ";P", ";p", ">(", "<3", "B)", "B-)", "O_O", "O_o", "R)", "R-)",
        "o_O", "o_o",
    ];

    let extras = Extras { emotes: owned(&emotes), ..Default::default() };

    for emote in emotes {
        let actual = run(emote, extras.clone()).remove(0);

        let expected = (PartKind::Emote, emote.to_string());

        assert_eq!(actual, expected, "failed {emote}");
    }
}

#[test]
fn url() {
    let actual = run(
        "https://github.com/jprochazk/logos-example/blob/master/src/main.rs not sure",
        Extras::default(),
    );

    let expected = vec![
        (
            PartKind::Url,
            "https://github.com/jprochazk/logos-example/blob/master/src/main.rs".to_string(),
        ),
        (PartKind::Text, " not sure".to_string()),
    ];

    assert_eq!(actual, expected);
}

#[test]
fn mentions() {
    let actual = run(
        "hey @mrhalzy",
        Extras { names: owned(&["mrhalzy"]), ..Default::default() },
    );

    let expected = vec![
        (PartKind::Text, "hey ".to_string()),
        (PartKind::Mention, "@mrhalzy".to_string()),
    ];

    assert_eq!(actual, expected);
}
