use command_history::lines::read_entries;
use command_history::retention::enforce_line_limit;

fn rewritten(content: &str, limit: usize) -> Option<String> {
    let lines = content.lines().count();
    if lines > limit {
        let mut text = String::new();
        for line in content.lines().skip(lines - limit) {
            text.push_str(line);
            text.push('\n');
        }
        Some(text)
    } else {
        None
    }
}

#[test]
fn ten_lines_at_a_limit_of_three_leave_the_last_three() {
    let content = "1\n2\n3\n4\n5\n6\n7\n8\n9\n10\n";
    let kept = enforce_line_limit(content, 3).expect("the text is over the limit");
    assert_eq!(kept, "8\n9\n10\n");
    assert_eq!(enforce_line_limit(&kept, 3), None);
}

#[test]
fn text_within_the_limit_is_left_alone() {
    assert_eq!(enforce_line_limit("a\nb\nc\n", 3), None);
    assert_eq!(enforce_line_limit("a\nb\nc", 3), None);
    assert_eq!(enforce_line_limit("a\nb\nc\n", 4), None);
    assert_eq!(enforce_line_limit("a\nb\nc\n", usize::MAX), None);
}

#[test]
fn empty_text_is_left_alone() {
    assert_eq!(enforce_line_limit("", 0), None);
    assert_eq!(enforce_line_limit("", 5), None);
}

#[test]
fn a_limit_of_zero_leaves_nothing() {
    assert_eq!(enforce_line_limit("a\nb\n", 0), Some(String::new()));
    assert_eq!(enforce_line_limit("\n", 0), Some(String::new()));
}

#[test]
fn one_line_over_the_limit_drops_the_oldest_line() {
    assert_eq!(enforce_line_limit("a\nb\nc\n", 2), Some("b\nc\n".to_owned()));
}

#[test]
fn the_last_line_gets_its_ending() {
    assert_eq!(enforce_line_limit("a\nb\nc", 2), Some("b\nc\n".to_owned()));
}

#[test]
fn blank_lines_count_as_lines() {
    assert_eq!(enforce_line_limit("a\n\n\nb\n", 3), Some("\n\nb\n".to_owned()));
    assert_eq!(enforce_line_limit("\n\n\n", 1), Some("\n".to_owned()));
}

#[test]
fn lines_are_kept_untrimmed() {
    assert_eq!(enforce_line_limit("x\n  a  \n\tb\t\n", 2), Some("  a  \n\tb\t\n".to_owned()));
}

#[test]
fn carriage_returns_before_line_feeds_are_dropped() {
    assert_eq!(enforce_line_limit("a\r\nb\r\nc\r\n", 2), Some("b\nc\n".to_owned()));
    assert_eq!(enforce_line_limit("a\nb\r\r\n", 1), Some("b\r\n".to_owned()));
}

#[test]
fn a_carriage_return_that_ends_the_text_is_kept() {
    assert_eq!(enforce_line_limit("a\nb\r", 1), Some("b\r\n".to_owned()));
}

#[test]
fn characters_of_every_width_are_kept() {
    assert_eq!(enforce_line_limit("é\n☃ snow\n𝄞 clef\n", 2), Some("☃ snow\n𝄞 clef\n".to_owned()));
}

#[test]
fn trimming_agrees_with_line_by_line_rewriting() {
    let samples = [
        "",
        "\n",
        "a",
        "a\n",
        "a\nb",
        "a\r\nb\r\nc",
        "\r\n\r\n\r",
        "1\n2\n3\n4\n5\n6\n7\n8\n9\n10\n",
        "x\ry\nz\r\r\n\n",
        "ü\nö\nä\n",
    ];
    for content in samples {
        for limit in 0..12 {
            assert_eq!(
                enforce_line_limit(content, limit),
                rewritten(content, limit),
                "content {content:?}, limit {limit}"
            );
        }
    }
}

#[test]
fn trimmed_text_is_within_the_limit() {
    let content = "a\r\r\nb\n\nc\r\nd";
    for limit in 0..6 {
        if let Some(kept) = enforce_line_limit(content, limit) {
            assert_eq!(kept.lines().count(), limit);
            assert_eq!(enforce_line_limit(&kept, limit), None);
        }
    }
}

#[test]
fn trimming_drops_the_oldest_entries_only() {
    let content = "one\r\n\n  two \nthree\r\r\n\t\nfour\nfive";
    let stored = read_entries(content);
    assert_eq!(stored, vec!["one", "two", "three", "four", "five"]);
    for limit in 0..9 {
        match enforce_line_limit(content, limit) {
            Some(kept) => {
                let left = read_entries(&kept);
                assert!(stored.ends_with(&left), "limit {limit}: {left:?}");
            }
            None => assert!(limit >= 7),
        }
    }
    assert_eq!(
        read_entries(&enforce_line_limit(content, 3).expect("the text is over the limit")),
        vec!["four", "five"]
    );
}

fn texts_up_to(length: usize, alphabet: &[char]) -> Vec<String> {
    let mut texts = vec![String::new()];
    let mut start = 0;
    for _ in 0..length {
        let end = texts.len();
        for i in start..end {
            for c in alphabet {
                let mut longer = texts[i].clone();
                longer.push(*c);
                texts.push(longer);
            }
        }
        start = end;
    }
    texts
}

#[test]
fn trimming_agrees_with_line_by_line_rewriting_on_every_short_text() {
    for content in texts_up_to(6, &['a', '\n', '\r']) {
        for limit in 0..5 {
            assert_eq!(
                enforce_line_limit(&content, limit),
                rewritten(&content, limit),
                "content {content:?}, limit {limit}"
            );
        }
    }
}
