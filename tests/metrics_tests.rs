use nlp::graphemes_struct::Graphemes;
use nlp::metrics::{word_accuracy, word_error_rate, MetricError, Rate};
use nlp::{max_match, Dictionary};

fn as_f64(rate: Rate) -> f64 {
    rate.numerator as f64 / rate.denominator as f64
}

#[test]
fn word_error_rate_test() {
    let mut dictionary = Dictionary::new();
    dictionary.insert(Graphemes::from("we"));
    dictionary.insert(Graphemes::from("canon"));
    dictionary.insert(Graphemes::from("see"));
    dictionary.insert(Graphemes::from("ash"));
    dictionary.insert(Graphemes::from("ort"));
    dictionary.insert(Graphemes::from("distance"));
    dictionary.insert(Graphemes::from("ahead"));
    let predicted_sentence = max_match(&Graphemes::from("wecanonlyseeashortdistanceahead"), &dictionary);
    let actual_sentence = Graphemes::from("we can only see a short distance ahead");
    assert_eq!(as_f64(word_error_rate(&actual_sentence, &predicted_sentence).unwrap()), 0.625);
    assert_eq!(as_f64(word_error_rate(&actual_sentence, &actual_sentence).unwrap()), 0.0)
}

#[test]
fn word_error_rate_is_exact_fraction() {
    let actual = Graphemes::from("we can only see a short distance ahead");
    let predicted = Graphemes::from("we canon l y see ash ort distance ahead");
    assert_eq!(word_error_rate(&actual, &predicted), Ok(Rate { numerator: 5, denominator: 8 }));
    assert_eq!(word_accuracy(&actual, &predicted), Ok(Rate { numerator: 3, denominator: 8 }));
    assert_eq!(as_f64(word_accuracy(&actual, &predicted).unwrap()), 0.375);
}

#[test]
fn word_error_rate_of_itself_is_zero() {
    for text in ["a", "hello world", "他 特别 喜欢", " x  y "] {
        let g = Graphemes::from(text);
        let rate = word_error_rate(&g, &g).unwrap();
        assert_eq!(rate.numerator, 0);
        assert_eq!(word_accuracy(&g, &g).unwrap().numerator as usize, rate.denominator);
    }
}

#[test]
fn word_error_rate_empty_reference() {
    let predicted = Graphemes::from("anything");
    assert_eq!(word_error_rate(&Graphemes::new(), &predicted), Err(MetricError::EmptyReference));
    assert_eq!(word_accuracy(&Graphemes::from(""), &predicted), Err(MetricError::EmptyReference));
}

#[test]
fn word_accuracy_can_be_negative() {
    let actual = Graphemes::from("a");
    let predicted = Graphemes::from("x y z");
    assert_eq!(word_error_rate(&actual, &predicted), Ok(Rate { numerator: 3, denominator: 1 }));
    assert_eq!(word_accuracy(&actual, &predicted), Ok(Rate { numerator: -2, denominator: 1 }));
}

#[test]
fn word_error_rate_empty_prediction() {
    let actual = Graphemes::from("one two");
    // an empty prediction is one empty word
    assert_eq!(word_error_rate(&actual, &Graphemes::new()), Ok(Rate { numerator: 2, denominator: 2 }));
}
