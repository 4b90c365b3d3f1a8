use std::collections::HashMap;

use markov_telegram_bot::chat_data::ChatData;
use markov_telegram_bot::generator::MarkovChainError;
use markov_telegram_bot::markov_chain::{Counter, TripletMarkovChain};
use markov_telegram_bot::prompts::{prompt_reply, Prompt, PromptKind, PromptStore};
use markov_telegram_bot::str_map::StrMap;

fn data_of(chain: &TripletMarkovChain) -> HashMap<String, HashMap<String, Counter>> {
    let table = chain.table();
    let mut data = HashMap::new();
    for i in 0..table.len() {
        let successors = table.value_at(i);
        let mut word_map = HashMap::new();
        for j in 0..successors.len() {
            word_map.insert(successors.key_at(j).clone(), *successors.value_at(j));
        }
        data.insert(table.key_at(i).clone(), word_map);
    }
    data
}

fn chain_of<'a>(chat_data: &'a ChatData, user_id: &str) -> Option<&'a TripletMarkovChain> {
    let chains = chat_data.chains();
    chains.find(user_id).map(|at| chains.value_at(at))
}

fn trained(texts: &[&str]) -> TripletMarkovChain {
    let mut chain = TripletMarkovChain::new();
    for text in texts {
        chain.add_message(text);
    }
    chain
}

#[test]
fn a_message_goes_to_its_sender_and_to_all() {
    let mut chat_data = ChatData::new(-1007);
    assert_eq!(-1007, chat_data.chat_id());
    assert_eq!(0, chat_data.chains().len());
    chat_data.add_message("1".to_string(), "one two");
    assert_eq!(1, chat_data.chains().len());
    assert_eq!(
        data_of(&trained(&["one two"])),
        data_of(chain_of(&chat_data, "1").unwrap())
    );
    chat_data.record("2".to_string(), "three");
    chat_data.record("1".to_string(), "four five");
    assert_eq!(3, chat_data.chains().len());
    assert_eq!(
        data_of(&trained(&["one two", "four five"])),
        data_of(chain_of(&chat_data, "1").unwrap())
    );
    assert_eq!(
        data_of(&trained(&["three"])),
        data_of(chain_of(&chat_data, "2").unwrap())
    );
    assert_eq!(
        data_of(&trained(&["three", "four five"])),
        data_of(chain_of(&chat_data, "all").unwrap())
    );
    assert!(chat_data.try_record("3".to_string(), "six"));
    assert_eq!(
        data_of(&trained(&["three", "four five", "six"])),
        data_of(chain_of(&chat_data, "all").unwrap())
    );
    assert_eq!(-1007, chat_data.chat_id());
}

#[test]
fn a_forgotten_user_leaves_all() {
    let mut chat_data = ChatData::new(5);
    chat_data.record("1".to_string(), "one two three");
    chat_data.record("2".to_string(), "one two four");
    chat_data.record("1".to_string(), "five");
    assert!(!chat_data.forget_user("3"));
    assert_eq!(3, chat_data.chains().len());
    assert!(chat_data.forget_user("1"));
    assert_eq!(2, chat_data.chains().len());
    assert!(chain_of(&chat_data, "1").is_none());
    assert_eq!(
        data_of(&trained(&["one two four"])),
        data_of(chain_of(&chat_data, "all").unwrap())
    );
    assert_eq!(
        data_of(&trained(&["one two four"])),
        data_of(chain_of(&chat_data, "2").unwrap())
    );
    assert!(!chat_data.forget_user("1"));
    assert!(chat_data.forget_user("2"));
    assert!(chain_of(&chat_data, "all").unwrap().is_empty());
    assert!(chat_data.forget_user("all"));
    assert_eq!(0, chat_data.chains().len());
}

#[test]
fn a_message_is_generated_for_a_user_with_a_chain() {
    let mut chat_data = ChatData::new(5);
    chat_data.record("1".to_string(), "one two three");
    assert_eq!(
        Some(Ok(vec!["one".to_string(), "two".to_string(), "three".to_string()])),
        chat_data.generate("1", None, None)
    );
    assert_eq!(
        Some(Ok(vec!["two".to_string(), "three".to_string()])),
        chat_data.generate("all", Some(&"Two".to_string()), None)
    );
    assert_eq!(
        Some(Err(MarkovChainError::NoSuchSeed)),
        chat_data.generate("all", Some(&"four".to_string()), None)
    );
    assert_eq!(None, chat_data.generate("2", None, None));
    chat_data.set_chain("2".to_string(), TripletMarkovChain::new());
    assert_eq!(Some(Err(MarkovChainError::Empty)), chat_data.generate("2", None, None));
    chat_data.set_chain("2".to_string(), trained(&["x"]));
    assert_eq!(Some(Ok(vec!["x".to_string()])), chat_data.generate("2", None, None));
}

#[test]
fn a_chain_is_made_from_a_stored_table() {
    let chain = trained(&["One, two", "$one two three", "one"]);
    let mut table: StrMap<StrMap<Counter>> = StrMap::new();
    for (key, word_map) in data_of(&chain) {
        let mut successors = StrMap::new();
        for (word, counter) in word_map {
            successors.insert(word, counter);
        }
        table.insert(key, successors);
    }
    let loaded = TripletMarkovChain::from_table(table).unwrap();
    assert_eq!(data_of(&chain), data_of(&loaded));
    let mut seeds: Vec<String> = (0..loaded.index().len())
        .map(|i| loaded.index().key_at(i).clone())
        .collect();
    seeds.sort();
    let mut expected: Vec<String> = (0..chain.index().len())
        .map(|i| chain.index().key_at(i).clone())
        .collect();
    expected.sort();
    assert_eq!(expected, seeds);
    assert_eq!(
        Ok(vec!["$one".to_string(), "two".to_string(), "three".to_string()]),
        loaded.generate(Some(&"$ONE".to_string()), None)
    );
    for _ in 0..20 {
        let said = loaded.generate(Some(&"two".to_string()), None).unwrap();
        assert!(said == vec!["two".to_string()] || said == vec!["two".to_string(), "three".to_string()]);
    }
}

#[test]
fn a_table_that_is_no_chain_is_refused() {
    let bad: [(&str, &[(&str, Counter)]); 7] = [
        ("nospace", &[("a", 1)]),
        ("$a b", &[("a", 1)]),
        ("a $b", &[("a", 1)]),
        ("a b", &[]),
        ("a b", &[("$c", 1)]),
        ("a b", &[("c", 0)]),
        ("a b", &[("c", 1), ("d", -1)]),
    ];
    for (key, successors) in bad {
        let mut table: StrMap<StrMap<Counter>> = StrMap::new();
        let mut map = StrMap::new();
        for (word, counter) in successors {
            map.insert(word.to_string(), *counter);
        }
        table.insert("x y".to_string(), {
            let mut good = StrMap::new();
            good.insert("z".to_string(), 1);
            good
        });
        table.insert(key.to_string(), map);
        assert!(TripletMarkovChain::from_table(table).is_none());
    }
    assert!(TripletMarkovChain::from_table(StrMap::new()).unwrap().is_empty());
}

#[test]
fn the_greatest_count_bounds_what_can_be_added() {
    let mut chain = TripletMarkovChain::new();
    assert_eq!(0, chain.max_count());
    assert!(chain.has_spare(7));
    chain.add_message("a a a a");
    assert_eq!(2, chain.max_count());
    assert!(chain.has_spare((i64::MAX - 2) as usize));
    assert!(!chain.has_spare((i64::MAX - 1) as usize));

    let mut table: StrMap<StrMap<Counter>> = StrMap::new();
    let mut successors = StrMap::new();
    successors.insert("one".to_string(), i64::MAX - 3);
    table.insert(" ".to_string(), successors);
    let full = TripletMarkovChain::from_table(table).unwrap();
    assert_eq!(i64::MAX - 3, full.max_count());
    assert!(full.has_spare(3));
    assert!(!full.has_spare(4));
    let mut chat_data = ChatData::new(1);
    chat_data.set_chain("all".to_string(), full);
    assert!(!chat_data.try_record("1".to_string(), "one"));
    assert_eq!(1, chat_data.chains().len());
    assert!(chain_of(&chat_data, "1").is_none());
    assert_eq!(i64::MAX - 3, chain_of(&chat_data, "all").unwrap().max_count());
    assert!(chat_data.try_record("1".to_string(), "x"));
    assert_eq!(2, chat_data.chains().len());
}

#[test]
fn a_prompt_waits_for_its_answer() {
    let mut prompts = PromptStore::new();
    assert!(prompts.original_prompt_for(1, Some(2), Some(3)).is_none());
    prompts.add_prompt(
        1,
        2,
        Prompt {
            message_id: 3,
            kind: PromptKind::DeleteMyData,
        },
    );
    prompts.add_prompt(
        1,
        4,
        Prompt {
            message_id: 5,
            kind: PromptKind::DeleteUserData("2".to_string()),
        },
    );
    let prompt = prompts.original_prompt_for(1, Some(2), Some(3)).unwrap();
    assert_eq!(3, prompt.message_id);
    assert!(matches!(prompt.kind, PromptKind::DeleteMyData));
    match &prompts.original_prompt_for(1, Some(4), Some(5)).unwrap().kind {
        PromptKind::DeleteUserData(user_id) => assert_eq!("2", user_id),
        other => panic!("{:?}", other),
    }
    assert!(prompts.original_prompt_for(1, Some(2), Some(5)).is_none());
    assert!(prompts.original_prompt_for(1, Some(2), None).is_none());
    assert!(prompts.original_prompt_for(1, None, Some(3)).is_none());
    assert!(prompts.original_prompt_for(2, Some(2), Some(3)).is_none());
    assert!(prompts.original_prompt_for(1, Some(3), Some(3)).is_none());

    prompts.add_prompt(
        1,
        2,
        Prompt {
            message_id: 9,
            kind: PromptKind::DeleteMyData,
        },
    );
    assert!(prompts.original_prompt_for(1, Some(2), Some(3)).is_none());
    assert!(prompts.original_prompt_for(1, Some(2), Some(9)).is_some());

    prompts.remove_prompt(7, &2);
    prompts.remove_prompt(1, &7);
    prompts.remove_prompt(1, &2);
    assert!(prompts.original_prompt_for(1, Some(2), Some(9)).is_none());
    assert!(prompts.original_prompt_for(1, Some(4), Some(5)).is_some());
}

#[test]
fn a_prompt_is_answered() {
    let mine = PromptKind::DeleteMyData;
    let theirs = PromptKind::DeleteUserData("2".to_string());
    assert_eq!(
        "Your Markov chain data in this group has been deleted.",
        prompt_reply(&mine, true, true)
    );
    assert_eq!("No data found.", prompt_reply(&mine, true, false));
    assert_eq!(
        "Okay, I won't delete your Markov chain data in this group then.",
        prompt_reply(&mine, false, true)
    );
    assert_eq!(
        "Their Markov chain data in this group has been deleted.",
        prompt_reply(&theirs, true, true)
    );
    assert_eq!("No data found.", prompt_reply(&theirs, true, false));
    assert_eq!(
        "Okay, I won't delete their Markov chain data in this group then.",
        prompt_reply(&theirs, false, false)
    );
}
