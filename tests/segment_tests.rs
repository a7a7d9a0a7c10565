use nlp::graphemes_struct::Graphemes;
use nlp::{max_match, Dictionary};

fn chinese_dictionary() -> Dictionary<'static> {
    let mut dictionary = Dictionary::new();
    dictionary.insert(Graphemes::from("他"));
    dictionary.insert(Graphemes::from("特别"));
    dictionary.insert(Graphemes::from("喜欢"));
    dictionary.insert(Graphemes::from("北京烤鸭"));
    dictionary
}

#[test]
fn max_match_test() {
    let chinese_dictionary = chinese_dictionary();
    let empty_sentence: Graphemes = max_match(&Graphemes::from(""), &chinese_dictionary);
    assert!(empty_sentence.is_empty());
    let sentence = max_match(&Graphemes::from("他特别喜欢北京烤鸭"), &chinese_dictionary);
    assert_eq!(&sentence, &Graphemes::from("他 特别 喜欢 北京烤鸭"));
    let another_sentence = max_match(&Graphemes::from("english"), &chinese_dictionary);
    assert_eq!(&another_sentence, &Graphemes::from("e n g l i s h"));
}

#[test]
fn max_match_prefers_longest_word() {
    let mut dictionary = Dictionary::new();
    dictionary.insert(Graphemes::from("ab"));
    dictionary.insert(Graphemes::from("aba"));
    let sentence = max_match(&Graphemes::from("abab"), &dictionary);
    assert_eq!(sentence.to_string(), "aba b");
}

#[test]
fn max_match_english_sentence() {
    let mut dictionary = Dictionary::new();
    for word in ["we", "canon", "see", "ash", "ort", "distance", "ahead"] {
        dictionary.insert(Graphemes::from(word));
    }
    let sentence = max_match(&Graphemes::from("wecanonlyseeashortdistanceahead"), &dictionary);
    assert_eq!(sentence.to_string(), "we canon l y see ash ort distance ahead");
}

#[test]
fn max_match_keeps_content() {
    let dictionary = chinese_dictionary();
    for text in ["他特别喜欢北京烤鸭", "english", "北京他", "特别特别", ""] {
        let input = Graphemes::from(text);
        let output = max_match(&input, &dictionary);
        let joined: String = output.to_string().chars().filter(|c| *c != ' ').collect();
        assert_eq!(joined, text);
        // segmenting the joined output again gives the same output
        let again = max_match(&Graphemes::from(joined.as_str()), &dictionary);
        assert_eq!(again, output);
    }
}

#[test]
fn max_match_word_is_fixed_point() {
    let dictionary = chinese_dictionary();
    for word in ["他", "特别", "喜欢", "北京烤鸭"] {
        assert_eq!(max_match(&Graphemes::from(word), &dictionary), Graphemes::from(word));
    }
}

#[test]
fn max_match_input_with_space() {
    let mut dictionary = Dictionary::new();
    dictionary.insert(Graphemes::from("ab"));
    let sentence = max_match(&Graphemes::from("ab cd"), &dictionary);
    assert_eq!(sentence.to_string(), "ab   c d");
}

#[test]
fn dictionary_insert_and_contains() {
    let mut dictionary = Dictionary::new();
    assert_eq!(dictionary.len(), 0);
    assert!(dictionary.insert(Graphemes::from("北京")));
    assert!(!dictionary.insert(Graphemes::from("北京")));
    assert!(dictionary.insert(Graphemes::from("烤鸭")));
    assert_eq!(dictionary.len(), 2);
    assert!(dictionary.contains(&Graphemes::from("北京")));
    assert!(!dictionary.contains(&Graphemes::from("北")));
    assert!(!dictionary.contains(&Graphemes::new()));
}
