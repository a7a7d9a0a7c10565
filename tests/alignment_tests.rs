use nlp::graphemes_struct::Graphemes;
use nlp::{alignment_path, alignment_strings, levenshtein_distance};

fn calculate_edit_distance_from_alignment(
    graphemes1: &Graphemes,
    graphemes2: &Graphemes,
    sub_cost: usize,
    ins_del_char: &str,
) -> usize {
    let alignments = alignment_strings(graphemes1, graphemes2, sub_cost, ins_del_char);
    assert_eq!(alignments[0].len(), alignments[1].len());
    let mut edit_distance = 0;
    for i in 0..alignments[0].len() {
        let left = *alignments[0].get(i).unwrap();
        let right = *alignments[1].get(i).unwrap();
        if left == " " || right == " " {
            edit_distance += 1;
        } else if left != right {
            edit_distance += sub_cost;
        }
    }
    edit_distance
}

#[test]
fn alignment_path_basic_test() {
    assert_eq!(calculate_edit_distance_from_alignment(&Graphemes::from(""), &Graphemes::from(""), 2, " "), 0);
    assert_eq!(calculate_edit_distance_from_alignment(&Graphemes::from(""), &Graphemes::from("a"), 2, " "), 1);
    assert_eq!(calculate_edit_distance_from_alignment(&Graphemes::from("a"), &Graphemes::from(""), 2, " "), 1);
    assert_eq!(calculate_edit_distance_from_alignment(&Graphemes::from(""), &Graphemes::from("aa"), 2, " "), 2);
    assert_eq!(calculate_edit_distance_from_alignment(&Graphemes::from("aa"), &Graphemes::from(""), 2, " "), 2);
    assert_eq!(calculate_edit_distance_from_alignment(&Graphemes::from("a"), &Graphemes::from("b"), 2, " "), 2);
}

#[test]
fn alignment_path_example_test() {
    let check = |a: &str, b: &str| {
        calculate_edit_distance_from_alignment(&Graphemes::from(a), &Graphemes::from(b), 1, " ")
    };
    assert_eq!(check("book", "back"), 2);
    assert_eq!(check("back", "book"), 2);
    assert_eq!(check("kitten", "sitting"), 3);
    assert_eq!(check("sitting", "kitten"), 3);
    assert_eq!(check("longstring", "short"), 9);
    assert_eq!(check("short", "longstring"), 9);
    assert_eq!(check("superman", "batman"), 5);
    assert_eq!(check("batman", "superman"), 5);
    assert_eq!(check("", "aaaaaaaaaaaaaaaaa"), 17);
    assert_eq!(check("aaaaaaaaaaaaaaaaa", ""), 17);
}

#[test]
fn alignment_path_dog_woof() {
    let path = alignment_path(&Graphemes::from("dog"), &Graphemes::from("woof"), 1);
    assert_eq!(path, vec![(0, 0), (1, 1), (2, 2), (3, 3), (3, 4)]);
}

#[test]
fn alignment_path_prefers_insertion_then_deletion_on_ties() {
    // with substitution cost 2 the diagonal ties with insertion + deletion
    let path = alignment_path(&Graphemes::from("a"), &Graphemes::from("b"), 2);
    assert_eq!(path, vec![(0, 0), (1, 0), (1, 1)]);
    let path = alignment_path(&Graphemes::from("ab"), &Graphemes::from("ba"), 2);
    assert_eq!(path, vec![(0, 0), (1, 0), (2, 1), (2, 2)]);
}

#[test]
fn alignment_path_of_empty_inputs() {
    assert_eq!(alignment_path(&Graphemes::new(), &Graphemes::new(), 1), vec![(0, 0)]);
    assert_eq!(
        alignment_path(&Graphemes::from("abc"), &Graphemes::new(), 1),
        vec![(0, 0), (1, 0), (2, 0), (3, 0)]
    );
}

#[test]
fn alignment_strings_intention_execution() {
    let intention = Graphemes::from("intention");
    let execution = Graphemes::from("execution");
    let strings = alignment_strings(&intention, &execution, 1, " ");
    assert_eq!(strings[0], Graphemes::from("inten tion"));
    assert_eq!(strings[1], Graphemes::from("ex ecution"));
    assert_eq!(strings[0].len(), strings[1].len());
    assert_eq!(
        calculate_edit_distance_from_alignment(&intention, &execution, 1, " "),
        levenshtein_distance(&intention, &execution, 1)
    );
    assert_eq!(levenshtein_distance(&intention, &execution, 1), 5);
}

#[test]
fn alignment_strings_other_placeholder() {
    let strings = alignment_strings(&Graphemes::from("kitten"), &Graphemes::from("sitting"), 1, "-");
    assert_eq!(strings[0].to_string(), "kitten-");
    assert_eq!(strings[1].to_string(), "sitting");
    let strings = alignment_strings(&Graphemes::from("abc"), &Graphemes::new(), 1, "_");
    assert_eq!(strings[0].to_string(), "abc");
    assert_eq!(strings[1].to_string(), "___");
}

#[test]
fn alignment_round_trip_on_samples() {
    let samples = ["", "a", "ab", "ba", "book", "back", "kitten", "sitting", "北京烤鸭", "北京"];
    for cost in [1usize, 2, 3] {
        for a in samples {
            for b in samples {
                let (ga, gb) = (Graphemes::from(a), Graphemes::from(b));
                assert_eq!(
                    calculate_edit_distance_from_alignment(&ga, &gb, cost, " "),
                    levenshtein_distance(&ga, &gb, cost)
                );
            }
        }
    }
}

#[test]
fn alignment_of_word_sequences() {
    let a = vec![Graphemes::from("we"), Graphemes::from("can")];
    let b = vec![Graphemes::from("we"), Graphemes::from("canon"), Graphemes::from("see")];
    let strings = alignment_strings(&a, &b, 1, Graphemes::from("*"));
    assert_eq!(strings[0], vec![Graphemes::from("we"), Graphemes::from("can"), Graphemes::from("*")]);
    assert_eq!(strings[1], b);
}
