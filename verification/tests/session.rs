use std::collections::HashMap;
use tagwords::session::Session;
use tagwords::table::WordTable;
use tagwords::token::{Attribute, Token};

fn start(name: &str) -> Token {
    Token::StartTag { name: name.to_string(), attributes: Vec::new(), self_closing: false }
}

fn end(name: &str) -> Token {
    Token::EndTag { name: name.to_string() }
}

fn chars(text: &str) -> Token {
    Token::Characters(text.to_string())
}

fn counts_as_map(table: &WordTable) -> HashMap<String, HashMap<String, usize>> {
    let mut map = HashMap::new();
    for i in 0..table.len() {
        let tags: HashMap<String, usize> = table.tag_counts(i).into_iter().collect();
        assert!(map.insert(table.word(i).to_string(), tags).is_none());
    }
    map
}

fn expected_counts(rows: &[(&str, &[(&str, usize)])]) -> HashMap<String, HashMap<String, usize>> {
    rows.iter()
        .map(|(word, tags)| {
            (word.to_string(), tags.iter().map(|(tag, count)| (tag.to_string(), *count)).collect())
        })
        .collect()
}

fn run(tokens: Vec<Token>) -> Session {
    let mut session = Session::new();
    assert_eq!(session.feed(&tokens), tokens.len());
    session.end();
    session
}

#[test]
fn new_session_is_at_the_root_with_an_empty_table() {
    let session = Session::new();
    assert_eq!(session.current_tag(), "root");
    assert!(!session.in_char_run());
    assert_eq!(session.total(), 0);
    assert_eq!(session.table().len(), 0);
}

#[test]
fn end_to_end_hello_world() {
    let session = run(vec![start("body"), chars("Hello world"), end("body")]);
    assert_eq!(
        counts_as_map(&session.get_word_tag_counts()),
        expected_counts(&[("hello", &[("body", 1)]), ("world", &[("body", 1)])])
    );
}

#[test]
fn attribution_follows_nesting() {
    let session = run(vec![
        start("p"),
        chars("a"),
        start("span"),
        chars("b"),
        end("span"),
        chars("c"),
        end("p"),
    ]);
    assert_eq!(
        counts_as_map(session.table()),
        expected_counts(&[("a", &[("p", 1)]), ("b", &[("span", 1)]), ("c", &[("p", 1)])])
    );
    assert_eq!(session.current_tag(), "root");
}

#[test]
fn unmatched_end_tag_is_tolerated() {
    let mut session = Session::new();
    assert!(session.process_token(&end("p")));
    assert_eq!(session.current_tag(), "root");
    assert!(session.process_token(&chars("stray text")));
    assert_eq!(session.table().count("stray", "root"), 1);
    assert_eq!(session.table().count("text", "root"), 1);

    let session = run(vec![start("div"), end("div"), end("div"), chars("after")]);
    assert_eq!(counts_as_map(session.table()), expected_counts(&[("after", &[("root", 1)])]));
}

#[test]
fn repetition_across_tags() {
    let session = run(vec![
        start("div"),
        chars("Sample text with sample words"),
        end("div"),
        start("p"),
        chars("a sample"),
        end("p"),
    ]);
    let table = session.get_word_tag_counts();
    assert_eq!(table.count("sample", "div"), 2);
    assert_eq!(table.count("sample", "p"), 1);
    let counts = counts_as_map(&table);
    assert_eq!(counts["sample"], expected_counts(&[("sample", &[("div", 2), ("p", 1)])])["sample"]);
}

#[test]
fn same_word_twice_under_div_once_under_p() {
    let session = run(vec![
        start("div"),
        chars("sample"),
        chars("sample"),
        end("div"),
        start("p"),
        chars("sample"),
        end("p"),
    ]);
    assert_eq!(
        counts_as_map(session.table()),
        expected_counts(&[("sample", &[("div", 2), ("p", 1)])])
    );
}

#[test]
fn pure_punctuation_adds_no_entries() {
    let session = run(vec![start("p"), chars("-- ..."), end("p")]);
    assert_eq!(session.table().len(), 0);
    assert_eq!(counts_as_map(session.table()), expected_counts(&[]));
}

#[test]
fn text_before_any_tag_counts_under_root() {
    let session = run(vec![chars("yeee")]);
    assert_eq!(counts_as_map(session.table()), expected_counts(&[("yeee", &[("root", 1)])]));
}

#[test]
fn character_run_state_follows_the_tokens() {
    let mut session = Session::new();
    assert!(session.process_token(&chars("text")));
    assert!(session.in_char_run());
    assert!(session.process_token(&start("p")));
    assert!(!session.in_char_run());
    assert!(session.process_token(&Token::NullCharacter));
    assert!(session.in_char_run());
    assert!(session.process_token(&end("p")));
    assert!(!session.in_char_run());
    assert!(session.process_token(&chars("")));
    assert!(session.in_char_run());
    assert!(session.process_token(&Token::ParseError("bad".to_string())));
    assert!(!session.in_char_run());
    session.do_char('x');
    assert!(session.in_char_run());
    assert!(session.process_token(&Token::Other));
    assert!(!session.in_char_run());
    session.is_char(true);
    assert!(session.in_char_run());
    session.end();
    assert!(!session.in_char_run());
}

#[test]
fn null_character_and_errors_leave_tags_and_counts_alone() {
    let mut session = Session::new();
    assert!(session.process_token(&start("p")));
    assert!(session.process_token(&chars("one")));
    assert!(session.process_token(&Token::NullCharacter));
    assert!(session.process_token(&Token::ParseError("unexpected".to_string())));
    assert!(session.process_token(&Token::Other));
    assert_eq!(session.current_tag(), "p");
    assert_eq!(session.total(), 1);
    assert!(session.process_token(&chars("two")));
    assert_eq!(
        counts_as_map(session.table()),
        expected_counts(&[("one", &[("p", 1)]), ("two", &[("p", 1)])])
    );
}

#[test]
fn attributes_and_self_closing_flag_are_not_read() {
    let mut session = Session::new();
    let token = Token::StartTag {
        name: "a".to_string(),
        attributes: vec![Attribute { name: "href".to_string(), value: "words here".to_string() }],
        self_closing: true,
    };
    assert!(session.process_token(&token));
    assert_eq!(session.current_tag(), "a");
    assert_eq!(session.total(), 0);
    assert!(session.process_token(&chars("link")));
    assert_eq!(session.table().count("link", "a"), 1);
    assert_eq!(session.table().count("words", "a"), 0);
}

#[test]
fn count_words_uses_the_current_tag() {
    let mut session = Session::new();
    assert!(session.count_words("top"));
    assert!(session.process_token(&start("h1")));
    assert!(session.count_words("Hello from a variable!"));
    assert_eq!(session.table().count("top", "root"), 1);
    assert_eq!(session.table().count("hello", "h1"), 1);
    assert_eq!(session.table().count("variable", "h1"), 1);
    assert_eq!(session.total(), 5);
}

#[test]
fn zero_length_character_run() {
    let session = run(vec![start("p"), chars(""), end("p")]);
    assert_eq!(session.table().len(), 0);
    assert_eq!(session.total(), 0);
}

#[test]
fn snapshot_taken_mid_stream() {
    let mut session = Session::new();
    assert!(session.process_token(&start("p")));
    assert!(session.process_token(&chars("early")));
    let early = session.get_word_tag_counts();
    assert!(session.process_token(&chars("late early")));
    assert_eq!(counts_as_map(&early), expected_counts(&[("early", &[("p", 1)])]));
    assert_eq!(
        counts_as_map(session.table()),
        expected_counts(&[("early", &[("p", 2)]), ("late", &[("p", 1)])])
    );
}

#[test]
fn feed_takes_every_token_in_order() {
    let mut session = Session::new();
    assert_eq!(session.feed(&Vec::new()), 0);
    let tokens = vec![start("a"), start("b"), chars("x"), end("b"), chars("x"), end("a"), chars("x")];
    assert_eq!(session.feed(&tokens), 7);
    assert_eq!(
        counts_as_map(session.table()),
        expected_counts(&[("x", &[("b", 1), ("a", 1), ("root", 1)])])
    );
}

struct PlainModel {
    current: String,
    stack: Vec<String>,
    counts: HashMap<String, HashMap<String, usize>>,
    in_char_run: bool,
}

impl PlainModel {
    fn take(&mut self, token: &Token) {
        match token {
            Token::Characters(text) => {
                for fragment in text.split_whitespace() {
                    let word = fragment
                        .chars()
                        .filter(|c| c.is_alphanumeric() || *c == '\'')
                        .collect::<String>()
                        .to_lowercase();
                    if !word.is_empty() {
                        *self.counts.entry(word).or_default().entry(self.current.clone()).or_insert(0) += 1;
                    }
                }
                self.in_char_run = true;
            },
            Token::NullCharacter => self.in_char_run = true,
            Token::StartTag { name, .. } => {
                self.in_char_run = false;
                self.stack.push(self.current.clone());
                self.current = name.clone();
            },
            Token::EndTag { .. } => {
                self.in_char_run = false;
                if let Some(parent) = self.stack.pop() {
                    self.current = parent;
                }
            },
            _ => self.in_char_run = false,
        }
    }
}

#[test]
fn session_agrees_with_a_plain_model_on_many_streams() {
    let tags = ["p", "div", "span", "b"];
    let texts = ["", "Hello world", "a A a.", "-- ...", "don't Don't", "x y\tz\n", "İ é É", " sample, SAMPLE "];
    let mut seed: u64 = 0x2545_f491_4f6c_dd1d;
    let mut next = move |bound: u64| {
        seed = seed.wrapping_mul(6364136223846793005).wrapping_add(1442695040888963407);
        (seed >> 33) % bound
    };
    for _ in 0..200 {
        let mut session = Session::new();
        let mut model = PlainModel {
            current: "root".to_string(),
            stack: Vec::new(),
            counts: HashMap::new(),
            in_char_run: false,
        };
        let length = next(30);
        for _ in 0..length {
            let token = match next(7) {
                0 | 1 => chars(texts[next(texts.len() as u64) as usize]),
                2 | 3 => start(tags[next(tags.len() as u64) as usize]),
                4 => end(tags[next(tags.len() as u64) as usize]),
                5 => Token::NullCharacter,
                _ => Token::ParseError("error".to_string()),
            };
            assert!(session.process_token(&token));
            model.take(&token);
            assert_eq!(session.current_tag(), model.current);
            assert_eq!(session.in_char_run(), model.in_char_run);
        }
        assert_eq!(counts_as_map(session.table()), model.counts);
        let total: usize = model.counts.values().flat_map(|tags| tags.values()).sum();
        assert_eq!(session.total(), total);
    }
}
