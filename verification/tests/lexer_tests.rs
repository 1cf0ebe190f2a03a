use inverted_index::dictionary::Dictionary;
use inverted_index::dictionary::KeyValDictionaryStorage;
use inverted_index::dictionary::LineError;
use inverted_index::dictionary::add_file_to_dict;
use inverted_index::lexer::LexerStats;
use inverted_index::lexer::tokenize;

fn count_of(dict: &Dictionary, word: &str) -> usize {
    for (w, c) in dict.word_counts() {
        if w == word {
            return *c;
        }
    }
    0
}

#[test]
fn case() {
    let (dict, _stats) = add_file_to_dict("A a A a A").unwrap();
    assert_eq!(dict.unique_word_count(), 1);
    assert_eq!(dict.total_word_count(), 5);
}

#[test]
fn ukr() {
    let (dict, _stats) = add_file_to_dict("кіт пес кіт дім ліс пес кіт сад").unwrap();
    assert_eq!(dict.unique_word_count(), 5);
    assert_eq!(dict.total_word_count(), 8);
}

#[test]
fn ukr_case() {
    let (dict, _stats) = add_file_to_dict("ЯКЕ яке Яке якЕ ЯкЕ").unwrap();
    assert_eq!(dict.unique_word_count(), 1);
    assert_eq!(dict.total_word_count(), 5);
}

#[test]
fn ukr_apostrophe() {
    let (dict, _stats) = add_file_to_dict("м'ята з'їзд бур'ян сім'я").unwrap();
    assert_eq!(dict.unique_word_count(), 4);
    assert_eq!(dict.total_word_count(), 4);
}

#[test]
fn line_count() {
    let (_dict, stats) = add_file_to_dict("a\nb\nc\nd\ne\nf\ng\nh\ni\nj").unwrap();
    assert_eq!(stats.lines, 10);
}

#[test]
fn empty() {
    let result = add_file_to_dict("");
    assert!(matches!(result, None));
}

#[test]
fn word_count() {
    let (dict, _stats) = add_file_to_dict("to be or not to be to be or not to").unwrap();
    assert_eq!(dict.unique_word_count(), 4);
    assert_eq!(dict.total_word_count(), 11);
}

#[test]
fn character_count() {
    let (_dict, stats) = add_file_to_dict("hello, world fo").unwrap();
    assert_eq!(stats.characters_read, 15);
    assert_eq!(stats.characters_ignored, 3);
}

#[test]
fn character_count_with_newlines() {
    let (_dict, stats) = add_file_to_dict("one fine morning\nwe went out to see the seaside")
        .unwrap();
    assert_eq!(stats.characters_read, 47);
    assert_eq!(stats.characters_ignored, 9);
}

#[test]
fn ukr_sentence() {
    let mut words: Vec<String> = Vec::new();
    let letters = [
        'а', 'б', 'в', 'г', 'д', 'е', 'ж', 'з', 'и', 'к', 'л', 'м', 'н', 'п', 'р', 'с', 'т',
    ];
    'outer: for a in letters {
        for b in letters {
            words.push(format!("{}{}", a, b));
            if words.len() == 39 {
                break 'outer;
            }
        }
    }
    for i in 0..4 {
        let w = words[i].clone();
        words.push(w);
    }
    let text = words.join(" ");
    let (dict, _stats) = add_file_to_dict(&text).unwrap();
    assert_eq!(dict.unique_word_count(), 39);
    assert_eq!(dict.total_word_count(), 43);
}

#[test]
fn special_symbols() {
    let (dict, stats) = add_file_to_dict("0123456789 +-*/=<>[]{}()!?,.;:").unwrap();
    assert_eq!(dict.unique_word_count(), 0);
    assert_eq!(dict.total_word_count(), 0);
    assert_eq!(stats.characters_read, 30);
    assert_eq!(stats.characters_ignored, stats.characters_read);
}

#[test]
fn tokens_lowercased_and_counted() {
    let (tokens, stats) = tokenize("Hello, WORLD!\nbye.\n");
    assert_eq!(tokens, vec!["hello", "world", "bye"]);
    assert_eq!(stats.characters_read, 19);
    assert_eq!(stats.characters_ignored, 6);
    assert_eq!(stats.lines, 3);
}

#[test]
fn folding_repeats_collapse() {
    let (tokens, _stats) = tokenize("ЯКЕ ЯкЕ яке");
    assert_eq!(tokens.len(), 3);
    assert_eq!(tokens[0], tokens[1]);
    assert_eq!(tokens[1], tokens[2]);
    let (dict, _stats) = add_file_to_dict("ЯКЕ ЯкЕ яке").unwrap();
    assert_eq!(dict.unique_word_count(), 1);
    assert_eq!(dict.total_word_count(), 3);
}

#[test]
fn apostrophes_inside_words() {
    let (tokens, _stats) = tokenize("it's 'tis don't");
    assert_eq!(tokens, vec!["it's", "tis", "don't"]);
    let (dict, _stats) = add_file_to_dict("it's 'tis don't").unwrap();
    assert_eq!(dict.unique_word_count(), 3);
}

#[test]
fn stats_merge_adds() {
    let mut a = LexerStats { characters_read: 3, characters_ignored: 1, lines: 2 };
    let b = LexerStats { characters_read: 4, characters_ignored: 2, lines: 1 };
    a.merge(b);
    assert_eq!(a.characters_read, 7);
    assert_eq!(a.characters_ignored, 3);
    assert_eq!(a.lines, 3);
}

#[test]
fn dictionary_merge_sums_counts() {
    let (mut d1, _) = add_file_to_dict("tea tea cup").unwrap();
    let (d2, _) = add_file_to_dict("cup pot").unwrap();
    d1.merge(d2);
    assert_eq!(d1.unique_word_count(), 3);
    assert_eq!(d1.total_word_count(), 5);
    assert_eq!(count_of(&d1, "tea"), 2);
    assert_eq!(count_of(&d1, "cup"), 2);
    assert_eq!(count_of(&d1, "pot"), 1);
}

#[test]
fn merge_order_does_not_matter() {
    let (mut x, _) = add_file_to_dict("sun moon sun").unwrap();
    let (y, _) = add_file_to_dict("moon star").unwrap();
    let (mut p, _) = add_file_to_dict("moon star").unwrap();
    let (q, _) = add_file_to_dict("sun moon sun").unwrap();
    x.merge(y);
    p.merge(q);
    assert_eq!(count_of(&x, "sun"), count_of(&p, "sun"));
    assert_eq!(count_of(&x, "moon"), count_of(&p, "moon"));
    assert_eq!(count_of(&x, "star"), count_of(&p, "star"));
    assert_eq!(x.unique_word_count(), p.unique_word_count());
    assert_eq!(x.total_word_count(), p.total_word_count());
}

#[test]
fn parse_line_reads_word_and_count() {
    let (w, c) = KeyValDictionaryStorage::parse_line("tea=42").unwrap();
    assert_eq!(w, "tea");
    assert_eq!(c, 42);
}

#[test]
fn parse_line_rejects_bad_lines() {
    assert_eq!(
        KeyValDictionaryStorage::parse_line("tea"),
        Err(LineError::MissingSeparator)
    );
    assert_eq!(
        KeyValDictionaryStorage::parse_line("a=b=c"),
        Err(LineError::ExtraSeparator)
    );
    assert_eq!(KeyValDictionaryStorage::parse_line("tea="), Err(LineError::BadCount));
    assert_eq!(KeyValDictionaryStorage::parse_line("tea=1x"), Err(LineError::BadCount));
}
