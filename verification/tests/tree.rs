use t9::pad::{digits_for, Digit, Digits};
use t9::tree::Tree;

fn words(list: &[&str]) -> Vec<String> {
    list.iter().map(|word| String::from(*word)).collect()
}

#[test]
fn adding_a_word_should_also_return_it() {
    let mut tree: Tree = Tree::empty();
    tree.add("rust");

    let actual = tree.words_at(Digits::from([
        Digit::Seven,
        Digit::Eight,
        Digit::Seven,
        Digit::Eight,
    ]));

    let expected: Vec<String> = vec![String::from("rust")];
    assert_eq!(actual, expected);
}

#[test]
fn empty_tree_has_no_words_anywhere() {
    let tree = Tree::empty();
    let none: [Digit; 0] = [];
    assert_eq!(tree.words_at(Digits::from(none)), words(&[]));
    assert_eq!(tree.words_at(Digits::from(vec![])), words(&[]));
    assert_eq!(tree.words_at(Digits::from([Digit::Seven])), words(&[]));
    assert_eq!(tree.words_at(Digits::from([Digit::Zero, Digit::One])), words(&[]));
    assert_eq!(tree.words_at(digits_for("rust")), words(&[]));
}

#[test]
fn added_word_is_found_under_its_digits() {
    for word in ["rust", "Verus", "a", "tree-walk", "O'Neill", "zzzzzzzzzzzzzzzzzzzzzzzzzzzz"] {
        let mut tree = Tree::empty();
        tree.add("other");
        tree.add(word);
        let found = tree.words_at(digits_for(word));
        assert!(found.contains(&String::from(word)));
        assert_eq!(found.last(), Some(&String::from(word)));
    }
}

#[test]
fn words_that_part_at_the_last_digit_stay_apart() {
    let mut tree = Tree::empty();
    tree.add("rust");
    tree.add("ruse");
    assert_eq!(
        tree.words_at(Digits::from([Digit::Seven, Digit::Eight, Digit::Seven, Digit::Eight])),
        words(&["rust"])
    );
    assert_eq!(
        tree.words_at(Digits::from([Digit::Seven, Digit::Eight, Digit::Seven, Digit::Three])),
        words(&["ruse"])
    );
    assert_eq!(
        tree.words_at(Digits::from([Digit::Seven, Digit::Eight, Digit::Seven])),
        words(&[])
    );
    assert_eq!(tree.words_at(Digits::from([Digit::Seven])), words(&[]));
    assert_eq!(tree.words_at(Digits::from(vec![])), words(&[]));
    assert_eq!(
        tree.words_at(Digits::from([
            Digit::Seven,
            Digit::Eight,
            Digit::Seven,
            Digit::Eight,
            Digit::Seven
        ])),
        words(&[])
    );
}

#[test]
fn lookup_can_be_repeated() {
    let mut tree = Tree::empty();
    tree.add("rust");
    tree.add("ruse");
    let first = tree.words_at(digits_for("rust"));
    let second = tree.words_at(digits_for("rust"));
    assert_eq!(first, second);
    assert_eq!(second, words(&["rust"]));
    let miss = tree.words_at(digits_for("nope"));
    assert_eq!(miss, tree.words_at(digits_for("nope")));
    assert_eq!(miss, words(&[]));
    assert_eq!(tree.words_at(digits_for("ruse")), words(&["ruse"]));
}

#[test]
fn words_with_one_encoding_are_kept_in_order() {
    assert_eq!(digits_for("rust"), digits_for("suru"));
    let mut tree = Tree::empty();
    tree.add("rust");
    tree.add("suru");
    assert_eq!(tree.words_at(digits_for("rust")), words(&["rust", "suru"]));

    let mut other = Tree::empty();
    other.add("suru");
    other.add("rust");
    other.add("PUPT");
    assert_eq!(
        other.words_at(Digits::from([Digit::Seven, Digit::Eight, Digit::Seven, Digit::Eight])),
        words(&["suru", "rust", "PUPT"])
    );
}

#[test]
fn a_word_added_twice_is_stored_twice() {
    let mut tree = Tree::empty();
    tree.add("rust");
    tree.add("rust");
    assert_eq!(tree.words_at(digits_for("rust")), words(&["rust", "rust"]));
}

#[test]
fn words_are_kept_as_they_were_given() {
    let mut tree = Tree::empty();
    tree.add("R-u-s-t!");
    tree.add("RUST");
    assert_eq!(tree.words_at(digits_for("rust")), words(&["R-u-s-t!", "RUST"]));
}

#[test]
fn word_without_letters_is_filed_at_the_root() {
    let mut tree = Tree::empty();
    tree.add("");
    tree.add("7878");
    tree.add("rust");
    tree.add("--");
    assert_eq!(tree.words_at(Digits::from(vec![])), words(&["", "7878", "--"]));
    assert_eq!(tree.words_at(digits_for("1-800")), words(&["", "7878", "--"]));
    assert_eq!(tree.words_at(digits_for("rust")), words(&["rust"]));
}

#[test]
fn prefixes_and_extensions_have_their_own_entries() {
    let mut tree = Tree::empty();
    tree.add("rusty");
    assert_eq!(tree.words_at(digits_for("rust")), words(&[]));
    tree.add("ru");
    tree.add("rust");
    assert_eq!(tree.words_at(digits_for("ru")), words(&["ru"]));
    assert_eq!(tree.words_at(digits_for("rust")), words(&["rust"]));
    assert_eq!(tree.words_at(digits_for("rusty")), words(&["rusty"]));
    assert_eq!(tree.words_at(digits_for("rus")), words(&[]));
    assert_eq!(tree.words_at(digits_for("r")), words(&[]));
    assert_eq!(tree.words_at(Digits::from(vec![])), words(&[]));
}

#[test]
fn digits_that_no_word_uses_lead_nowhere() {
    let mut tree = Tree::empty();
    tree.add("rust");
    assert_eq!(tree.words_at(Digits::from([Digit::Zero])), words(&[]));
    assert_eq!(tree.words_at(Digits::from([Digit::One])), words(&[]));
    assert_eq!(
        tree.words_at(Digits::from([Digit::Seven, Digit::Eight, Digit::Seven, Digit::Zero])),
        words(&[])
    );
    assert_eq!(
        tree.words_at(Digits::from([Digit::Seven, Digit::Eight, Digit::Seven, Digit::One])),
        words(&[])
    );
}

#[test]
fn every_button_branches_on_its_own() {
    let mut tree = Tree::empty();
    let letters = ["a", "d", "g", "j", "m", "p", "t", "w"];
    for letter in letters {
        tree.add(letter);
    }
    let buttons = [
        Digit::Two,
        Digit::Three,
        Digit::Four,
        Digit::Five,
        Digit::Six,
        Digit::Seven,
        Digit::Eight,
        Digit::Nine,
    ];
    for (letter, button) in letters.iter().zip(buttons.iter()) {
        assert_eq!(tree.words_at(Digits::from([*button])), words(&[letter]));
    }
}

#[test]
fn a_small_dictionary_answers_each_number() {
    let mut tree = Tree::empty();
    for word in ["good", "home", "gone", "hood", "hoof", "a", "b", "Rust", "golf"] {
        tree.add(word);
    }
    assert_eq!(
        tree.words_at(Digits::from([Digit::Four, Digit::Six, Digit::Six, Digit::Three])),
        words(&["good", "home", "gone", "hood", "hoof"])
    );
    assert_eq!(tree.words_at(Digits::from([Digit::Two])), words(&["a", "b"]));
    assert_eq!(
        tree.words_at(Digits::from([Digit::Four, Digit::Six, Digit::Five, Digit::Three])),
        words(&["golf"])
    );
    assert_eq!(tree.words_at(digits_for("rust")), words(&["Rust"]));
    assert_eq!(tree.words_at(digits_for("goo")), words(&[]));
}
