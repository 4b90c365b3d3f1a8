use std::collections::{HashMap, HashSet};

use markov_telegram_bot::generator::MarkovChainError;
use markov_telegram_bot::length::{ComparisonOperator, LengthRequirement};
use markov_telegram_bot::markov_chain::{Counter, TripletMarkovChain};

fn data_of(chain: &TripletMarkovChain) -> HashMap<String, HashMap<String, Counter>> {
    let table = chain.table();
    let mut data = HashMap::new();
    for i in 0..table.len() {
        let successors = table.value_at(i);
        let mut word_map = HashMap::new();
        for j in 0..successors.len() {
            word_map.insert(successors.key_at(j).clone(), *successors.value_at(j));
        }
        assert_eq!(successors.len(), word_map.len());
        data.insert(table.key_at(i).clone(), word_map);
    }
    assert_eq!(table.len(), data.len());
    data
}

fn meta_of(chain: &TripletMarkovChain) -> HashMap<String, HashSet<String>> {
    let index = chain.index();
    let mut meta = HashMap::new();
    for i in 0..index.len() {
        let keys = index.value_at(i);
        let mut set = HashSet::new();
        for j in 0..keys.len() {
            set.insert(keys.key_at(j).clone());
        }
        assert_eq!(keys.len(), set.len());
        meta.insert(index.key_at(i).clone(), set);
    }
    assert_eq!(index.len(), meta.len());
    meta
}

fn words(list: &[&str]) -> Vec<String> {
    list.iter().map(|w| w.to_string()).collect()
}

#[test]
fn test_add_word_triplet() {
    let mut markov_chain = TripletMarkovChain::default();
    assert_eq!(HashMap::default(), data_of(&markov_chain));
    assert_eq!(HashMap::default(), meta_of(&markov_chain));

    markov_chain.add_word_triplet(("one".to_string(), "two".to_string()), "three".to_string());
    assert_eq!(
        HashMap::from([("three".to_string(), 1 as Counter)]),
        *data_of(&markov_chain).get("one two").unwrap()
    );
    assert_eq!(
        HashSet::from(["one two".to_string()]),
        *meta_of(&markov_chain).get("two").unwrap()
    );

    markov_chain.add_word_triplet(("one".to_string(), "two".to_string()), "three".to_string());
    assert_eq!(
        HashMap::from([("three".to_string(), 2 as Counter)]),
        *data_of(&markov_chain).get("one two").unwrap()
    );
    assert_eq!(
        HashSet::from(["one two".to_string()]),
        *meta_of(&markov_chain).get("two").unwrap()
    );
}

#[test]
fn test_add_word_triplet_leading_dollar_sign() {
    let mut markov_chain = TripletMarkovChain::default();
    assert_eq!(HashMap::default(), data_of(&markov_chain));
    assert_eq!(HashMap::default(), meta_of(&markov_chain));

    markov_chain.add_word_triplet(
        ("$one".to_string(), "$two".to_string()),
        "$three".to_string(),
    );
    assert_eq!(
        HashMap::from([("\\$three".to_string(), 1 as Counter)]),
        *data_of(&markov_chain).get("\\$one \\$two").unwrap()
    );
    assert_eq!(
        HashSet::from(["\\$one \\$two".to_string()]),
        *meta_of(&markov_chain).get("\\$two").unwrap()
    );

    markov_chain.add_word_triplet(
        ("$one".to_string(), "$two".to_string()),
        "$three".to_string(),
    );
    assert_eq!(
        HashMap::from([("\\$three".to_string(), 2 as Counter)]),
        *data_of(&markov_chain).get("\\$one \\$two").unwrap()
    );
    assert_eq!(
        HashSet::from(["\\$one \\$two".to_string()]),
        *meta_of(&markov_chain).get("\\$two").unwrap()
    );
}

#[test]
fn test_remove_word_triplet() {
    let mut markov_chain = TripletMarkovChain::default();
    for _ in 0..3 {
        markov_chain.add_word_triplet(("one".to_string(), "two,".to_string()), "three".to_string());
    }
    assert_eq!(
        HashMap::from([(
            "one two,".to_string(),
            HashMap::from([("three".to_string(), 3 as Counter)])
        ),]),
        data_of(&markov_chain)
    );
    assert_eq!(
        HashMap::from([
            ("two,".to_string(), HashSet::from(["one two,".to_string()])),
            ("two".to_string(), HashSet::from(["one two,".to_string()])),
        ]),
        meta_of(&markov_chain)
    );

    markov_chain.remove_word_triplet(
        &("one".to_string(), "two,".to_string()),
        "three",
        &(2 as Counter),
    );
    assert_eq!(
        HashMap::from([(
            "one two,".to_string(),
            HashMap::from([("three".to_string(), 1 as Counter)])
        ),]),
        data_of(&markov_chain)
    );
    assert_eq!(
        HashMap::from([
            ("two,".to_string(), HashSet::from(["one two,".to_string()])),
            ("two".to_string(), HashSet::from(["one two,".to_string()])),
        ]),
        meta_of(&markov_chain)
    );
    markov_chain.remove_word_triplet(
        &("one".to_string(), "two,".to_string()),
        "three",
        &(1 as Counter),
    );
    assert_eq!(HashMap::default(), data_of(&markov_chain));
    assert_eq!(HashMap::default(), meta_of(&markov_chain));
}

#[test]
fn test_remove_word_triplet_leading_dollar_sign() {
    let mut markov_chain = TripletMarkovChain::default();
    for _ in 0..3 {
        markov_chain.add_word_triplet(
            ("$one".to_string(), "$two".to_string()),
            "$three".to_string(),
        );
    }
    assert_eq!(
        HashMap::from([("\\$three".to_string(), 3 as Counter)]),
        *data_of(&markov_chain).get("\\$one \\$two").unwrap()
    );
    assert_eq!(
        HashSet::from(["\\$one \\$two".to_string()]),
        *meta_of(&markov_chain).get("\\$two").unwrap()
    );

    markov_chain.remove_word_triplet(
        &("$one".to_string(), "$two".to_string()),
        "$three",
        &(2 as Counter),
    );
    assert_eq!(
        HashMap::from([("\\$three".to_string(), 1 as Counter)]),
        *data_of(&markov_chain).get("\\$one \\$two").unwrap()
    );
    assert_eq!(
        HashSet::from(["\\$one \\$two".to_string()]),
        *meta_of(&markov_chain).get("\\$two").unwrap()
    );

    markov_chain.remove_word_triplet(
        &("$one".to_string(), "$two".to_string()),
        "$three",
        &(1 as Counter),
    );
    assert!(data_of(&markov_chain).get("\\$one \\$two").is_none());
    assert!(meta_of(&markov_chain).get("\\$two").is_none());
}

#[test]
fn test_add_message() {
    let mut markov_chain = TripletMarkovChain::default();
    assert_eq!(HashMap::default(), data_of(&markov_chain));

    markov_chain.add_message("one two three");
    assert_eq!(
        HashMap::from([
            (
                " ".to_string(),
                HashMap::from([("one".to_string(), 1 as Counter)])
            ),
            (
                " one".to_string(),
                HashMap::from([("two".to_string(), 1 as Counter)])
            ),
            (
                "one two".to_string(),
                HashMap::from([("three".to_string(), 1 as Counter)])
            ),
            (
                "two three".to_string(),
                HashMap::from([("".to_string(), 1 as Counter)])
            ),
            (
                "three ".to_string(),
                HashMap::from([("".to_string(), 1 as Counter)])
            ),
        ]),
        data_of(&markov_chain)
    );
    assert_eq!(
        HashMap::from([
            ("one".to_string(), HashSet::from([" one".to_string()])),
            ("two".to_string(), HashSet::from(["one two".to_string()])),
            (
                "three".to_string(),
                HashSet::from(["two three".to_string()])
            ),
        ]),
        meta_of(&markov_chain)
    );
}

#[test]
fn test_remove_markov_chain() {
    let mut markov_chain = TripletMarkovChain::default();
    for _ in 0..5 {
        markov_chain.add_word_triplet(("one".to_string(), "two".to_string()), "three".to_string());
    }

    let mut other = TripletMarkovChain::default();
    for _ in 0..2 {
        other.add_word_triplet(("one".to_string(), "two".to_string()), "three".to_string());
    }

    markov_chain.remove_markov_chain(&other);

    assert_eq!(
        HashMap::from([(
            "one two".to_string(),
            HashMap::from([("three".to_string(), 3 as Counter)]),
        )]),
        data_of(&markov_chain)
    );
    assert_eq!(
        HashMap::from([("two".to_string(), HashSet::from(["one two".to_string()]))]),
        meta_of(&markov_chain)
    );
}

#[test]
fn test_generate() {
    let mut markov_chain = TripletMarkovChain::default();
    for _ in 0..5 {
        markov_chain.add_message("$one $two $three");
    }
    assert_eq!(
        HashMap::from([
            (
                " ".to_string(),
                HashMap::from([("\\$one".to_string(), 5 as Counter)])
            ),
            (
                " \\$one".to_string(),
                HashMap::from([("\\$two".to_string(), 5 as Counter)])
            ),
            (
                "\\$one \\$two".to_string(),
                HashMap::from([("\\$three".to_string(), 5 as Counter)])
            ),
            (
                "\\$two \\$three".to_string(),
                HashMap::from([("".to_string(), 5 as Counter)])
            ),
            (
                "\\$three ".to_string(),
                HashMap::from([("".to_string(), 5 as Counter)])
            ),
        ]),
        data_of(&markov_chain)
    );
    assert_eq!(
        HashMap::from([
            ("\\$one".to_string(), HashSet::from([" \\$one".to_string()])),
            ("one".to_string(), HashSet::from([" \\$one".to_string()])),
            (
                "\\$two".to_string(),
                HashSet::from(["\\$one \\$two".to_string()])
            ),
            (
                "two".to_string(),
                HashSet::from(["\\$one \\$two".to_string()])
            ),
            (
                "\\$three".to_string(),
                HashSet::from(["\\$two \\$three".to_string()])
            ),
            (
                "three".to_string(),
                HashSet::from(["\\$two \\$three".to_string()])
            ),
        ]),
        meta_of(&markov_chain)
    );

    match markov_chain.generate(None, None) {
        Ok(result) => {
            assert_eq!(
                vec!["$one".to_string(), "$two".to_string(), "$three".to_string()],
                result
            );
        }
        Err(e) => {
            panic!("Received MarkovChainError: {:?}", e);
        }
    }

    match markov_chain.generate(Some(&"$one".to_string()), None) {
        Ok(result) => {
            assert_eq!(
                vec!["$one".to_string(), "$two".to_string(), "$three".to_string()],
                result
            );
        }
        Err(e) => {
            panic!("Received MarkovChainError: {:?}", e);
        }
    }

    match markov_chain.generate(Some(&"$two".to_string()), None) {
        Ok(result) => {
            assert_eq!(vec!["$two".to_string(), "$three".to_string()], result);
        }
        Err(e) => {
            panic!("Received MarkovChainError: {:?}", e);
        }
    }

    match markov_chain.generate(Some(&"$three".to_string()), None) {
        Ok(result) => {
            assert_eq!(vec!["$three".to_string()], result);
        }
        Err(e) => {
            panic!("Received MarkovChainError: {:?}", e);
        }
    }
}

#[test]
fn test_generate_cleaned_seed() {
    let mut markov_chain = TripletMarkovChain::default();
    markov_chain.add_message("One, two, three!");
    assert_eq!(
        HashMap::from([
            (
                " ".to_string(),
                HashMap::from([("One,".to_string(), 1 as Counter)])
            ),
            (
                " One,".to_string(),
                HashMap::from([("two,".to_string(), 1 as Counter)])
            ),
            (
                "One, two,".to_string(),
                HashMap::from([("three!".to_string(), 1 as Counter)])
            ),
            (
                "two, three!".to_string(),
                HashMap::from([("".to_string(), 1 as Counter)])
            ),
            (
                "three! ".to_string(),
                HashMap::from([("".to_string(), 1 as Counter)])
            ),
        ]),
        data_of(&markov_chain)
    );
    assert_eq!(
        HashMap::from([
            ("one,".to_string(), HashSet::from([" One,".to_string()])),
            ("one".to_string(), HashSet::from([" One,".to_string()])),
            ("two,".to_string(), HashSet::from(["One, two,".to_string()])),
            ("two".to_string(), HashSet::from(["One, two,".to_string()])),
            (
                "three!".to_string(),
                HashSet::from(["two, three!".to_string()])
            ),
            (
                "three".to_string(),
                HashSet::from(["two, three!".to_string()])
            ),
        ]),
        meta_of(&markov_chain)
    );

    for seed in vec!["One,", "one,", "One", "one"] {
        match markov_chain.generate(Some(&seed.to_string()), None) {
            Ok(result) => {
                assert_eq!(
                    vec!["One,".to_string(), "two,".to_string(), "three!".to_string()],
                    result
                );
            }
            Err(e) => {
                panic!("Received MarkovChainError: {:?}", e);
            }
        }
    }
}

#[test]
fn generate_on_an_empty_chain_is_empty() {
    let markov_chain = TripletMarkovChain::new();
    assert_eq!(Err(MarkovChainError::Empty), markov_chain.generate(None, None));
    let requirement = LengthRequirement {
        value: 0,
        comparison_operator: ComparisonOperator::EqualTo,
    };
    assert_eq!(
        Err(MarkovChainError::Empty),
        markov_chain.generate(Some(&"one".to_string()), Some(&requirement))
    );
}

#[test]
fn generate_follows_the_single_path() {
    let mut markov_chain = TripletMarkovChain::new();
    markov_chain.add_message("one two three");
    for _ in 0..20 {
        assert_eq!(Ok(words(&["one", "two", "three"])), markov_chain.generate(None, None));
    }
    assert_eq!(
        Ok(words(&["two", "three"])),
        markov_chain.generate(Some(&"two".to_string()), None)
    );
    assert_eq!(
        Err(MarkovChainError::NoSuchSeed),
        markov_chain.generate(Some(&"four".to_string()), None)
    );
}

#[test]
fn generate_finds_a_seed_by_its_cleaned_form() {
    let mut markov_chain = TripletMarkovChain::new();
    markov_chain.add_message("one two three");
    assert_eq!(
        Ok(words(&["one", "two", "three"])),
        markov_chain.generate(Some(&"One,".to_string()), None)
    );
    assert_eq!(
        Ok(words(&["one", "two", "three"])),
        markov_chain.generate(Some(&"one".to_string()), None)
    );
    assert_eq!(
        Ok(words(&["two", "three"])),
        markov_chain.generate(Some(&"\"TWO!\"".to_string()), None)
    );
}

#[test]
fn generate_holds_to_the_length_requirement() {
    let mut markov_chain = TripletMarkovChain::new();
    markov_chain.add_message("one two three");
    let exactly_two = LengthRequirement {
        value: 2,
        comparison_operator: ComparisonOperator::EqualTo,
    };
    assert_eq!(
        Err(MarkovChainError::CannotMeetLengthRequirement),
        markov_chain.generate(None, Some(&exactly_two))
    );
    let at_most_three = LengthRequirement {
        value: 3,
        comparison_operator: ComparisonOperator::LessThanOrEqualTo,
    };
    assert_eq!(
        Ok(words(&["one", "two", "three"])),
        markov_chain.generate(None, Some(&at_most_three))
    );
    let more_than_three = LengthRequirement {
        value: 3,
        comparison_operator: ComparisonOperator::GreaterThan,
    };
    assert_eq!(
        Err(MarkovChainError::CannotMeetLengthRequirement),
        markov_chain.generate(None, Some(&more_than_three))
    );
    assert_eq!(
        Ok(words(&["two", "three"])),
        markov_chain.generate(Some(&"two".to_string()), Some(&exactly_two))
    );
}

#[test]
fn generate_refuses_an_invalid_length_requirement() {
    let mut markov_chain = TripletMarkovChain::new();
    markov_chain.add_message("one two three");
    let fewer_than_one = LengthRequirement {
        value: 1,
        comparison_operator: ComparisonOperator::LessThan,
    };
    assert_eq!(
        Err(MarkovChainError::LengthRequirementInvalid),
        markov_chain.generate(None, Some(&fewer_than_one))
    );
    assert_eq!(
        Err(MarkovChainError::LengthRequirementInvalid),
        markov_chain.generate(Some(&"four".to_string()), Some(&fewer_than_one))
    );
}

#[test]
fn generate_searches_all_branches_for_the_length() {
    let mut markov_chain = TripletMarkovChain::new();
    for _ in 0..50 {
        markov_chain.add_message("a b c d e f");
    }
    markov_chain.add_message("a b");
    let exactly_two = LengthRequirement {
        value: 2,
        comparison_operator: ComparisonOperator::EqualTo,
    };
    let exactly_six = LengthRequirement {
        value: 6,
        comparison_operator: ComparisonOperator::EqualTo,
    };
    for _ in 0..20 {
        assert_eq!(Ok(words(&["a", "b"])), markov_chain.generate(None, Some(&exactly_two)));
        assert_eq!(
            Ok(words(&["a", "b", "c", "d", "e", "f"])),
            markov_chain.generate(None, Some(&exactly_six))
        );
    }
}

#[test]
fn generate_ends_on_a_chain_that_repeats() {
    let mut markov_chain = TripletMarkovChain::new();
    markov_chain.add_message("a a a a");
    let exactly_nine = LengthRequirement {
        value: 9,
        comparison_operator: ComparisonOperator::EqualTo,
    };
    let result = markov_chain.generate(None, Some(&exactly_nine)).unwrap();
    assert_eq!(vec!["a".to_string(); 9], result);
    let fewer_than_three = LengthRequirement {
        value: 3,
        comparison_operator: ComparisonOperator::LessThan,
    };
    assert_eq!(
        Ok(words(&["a", "a"])),
        markov_chain.generate(None, Some(&fewer_than_three))
    );
    let exactly_one = LengthRequirement {
        value: 1,
        comparison_operator: ComparisonOperator::EqualTo,
    };
    assert_eq!(
        Err(MarkovChainError::CannotMeetLengthRequirement),
        markov_chain.generate(None, Some(&exactly_one))
    );
}

#[test]
fn add_message_without_words_changes_nothing() {
    let mut markov_chain = TripletMarkovChain::new();
    markov_chain.add_message("");
    markov_chain.add_message(" \t\n ");
    assert!(markov_chain.is_empty());
    assert_eq!(HashMap::default(), data_of(&markov_chain));
    assert_eq!(HashMap::default(), meta_of(&markov_chain));
}

#[test]
fn add_message_then_remove_gives_the_chain_back() {
    let mut markov_chain = TripletMarkovChain::new();
    markov_chain.add_message("one two three");
    markov_chain.add_message("$one two ... $three");
    let data = data_of(&markov_chain);
    let meta = meta_of(&markov_chain);

    for text in ["one two three", "$cash é !!! \\o/ $cash", "two   two\ttwo", "x"] {
        let mut other = TripletMarkovChain::new();
        other.add_message(text);
        markov_chain.add_message(text);
        assert_ne!(data, data_of(&markov_chain));
        markov_chain.remove_markov_chain(&other);
        assert_eq!(data, data_of(&markov_chain));
        assert_eq!(meta, meta_of(&markov_chain));
    }
}

#[test]
fn remove_all_that_was_seen_empties_the_chain() {
    let mut markov_chain = TripletMarkovChain::new();
    markov_chain.add_message("one two, !!! three");
    let mut other = TripletMarkovChain::new();
    other.add_message("one two, !!! three");
    markov_chain.remove_markov_chain(&other);
    assert!(markov_chain.is_empty());
    assert_eq!(HashMap::default(), data_of(&markov_chain));
    assert_eq!(HashMap::default(), meta_of(&markov_chain));
    assert_eq!(Err(MarkovChainError::Empty), markov_chain.generate(None, None));
}

#[test]
fn remove_takes_counts_and_not_only_entries() {
    let mut five = TripletMarkovChain::new();
    for _ in 0..5 {
        five.add_message("one two three");
    }
    let mut two = TripletMarkovChain::new();
    for _ in 0..2 {
        two.add_message("one two three");
    }
    let mut three = TripletMarkovChain::new();
    for _ in 0..3 {
        three.add_message("one two three");
    }
    five.remove_markov_chain(&two);
    assert_eq!(data_of(&three), data_of(&five));
    assert_eq!(meta_of(&three), meta_of(&five));
    assert_eq!(3, *data_of(&five).get("one two").unwrap().get("three").unwrap());
}

#[test]
fn remove_of_what_was_not_seen_changes_nothing() {
    let mut markov_chain = TripletMarkovChain::new();
    markov_chain.add_message("one two three");
    let data = data_of(&markov_chain);
    let meta = meta_of(&markov_chain);
    markov_chain.remove_word_triplet(&("one".to_string(), "two".to_string()), "four", &1);
    markov_chain.remove_word_triplet(&("two".to_string(), "one".to_string()), "three", &1);
    assert_eq!(data, data_of(&markov_chain));
    assert_eq!(meta, meta_of(&markov_chain));
    markov_chain.remove_word_triplet(&("one".to_string(), "two".to_string()), "three", &7);
    assert!(data_of(&markov_chain).get("one two").is_none());
    assert!(meta_of(&markov_chain).get("two").is_none());
}

#[test]
fn remove_message_takes_a_message_back() {
    let mut markov_chain = TripletMarkovChain::new();
    markov_chain.add_message("one two three");
    let data = data_of(&markov_chain);
    let meta = meta_of(&markov_chain);
    markov_chain.add_message("$one, two four");
    markov_chain.remove_message("$one, two four");
    assert_eq!(data, data_of(&markov_chain));
    assert_eq!(meta, meta_of(&markov_chain));
    markov_chain.remove_message("");
    assert_eq!(data, data_of(&markov_chain));
    markov_chain.remove_message("one two three");
    assert!(markov_chain.is_empty());
    assert_eq!(HashMap::default(), meta_of(&markov_chain));
}

#[test]
fn generate_starts_mostly_where_the_seed_was_followed_most() {
    let mut markov_chain = TripletMarkovChain::new();
    for _ in 0..200 {
        markov_chain.add_message("b a x");
    }
    markov_chain.add_message("c a y");
    let mut heavy = 0;
    for _ in 0..200 {
        let said = markov_chain.generate(Some(&"a".to_string()), None).unwrap();
        if said == words(&["a", "x"]) {
            heavy += 1;
        } else {
            assert_eq!(words(&["a", "y"]), said);
        }
    }
    assert!(heavy > 150);
}

#[test]
fn same_as_compares_what_chains_hold() {
    let mut first = TripletMarkovChain::new();
    let mut second = TripletMarkovChain::new();
    assert!(first.same_as(&second));
    first.add_message("one two three");
    assert!(!first.same_as(&second));
    assert!(!second.same_as(&first));
    second.add_message("four");
    second.add_message("one two three");
    second.remove_message("four");
    assert!(first.same_as(&second));
    assert!(second.same_as(&first));
    second.add_message("one two three");
    assert!(!first.same_as(&second));
    first.add_message("one two four");
    assert!(!first.same_as(&second));
    let copy = first.clone();
    assert!(copy.same_as(&first));
    assert_eq!(data_of(&first), data_of(&copy));
    assert_eq!(meta_of(&first), meta_of(&copy));
}

#[test]
fn a_message_added_and_taken_back_gives_the_same_chain() {
    let mut markov_chain = TripletMarkovChain::new();
    markov_chain.add_message("one two three");
    markov_chain.add_message("$one two $three");
    for text in ["one two three", "$cash $cash !!! é", "x", " ", "\\$odd $one"] {
        let before = markov_chain.clone();
        let mut other = TripletMarkovChain::default();
        other.add_message(text);
        markov_chain.add_message(text);
        markov_chain.remove_markov_chain(&other);
        assert!(markov_chain.same_as(&before));
        assert_eq!(meta_of(&before), meta_of(&markov_chain));
    }
}
