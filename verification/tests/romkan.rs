use libakaza::romkan::{consonant, RomKanConverter};

#[test]
fn kitsune_in_hiragana() {
    let romkan = RomKanConverter::default();
    assert_eq!(romkan.to_hiragana("kitsune"), "きつね");
}

#[test]
fn pending_n_is_left_standing() {
    let romkan = RomKanConverter::default();
    assert_eq!(romkan.to_hiragana("n"), "n");
    assert_eq!(romkan.to_hiragana("kon"), "こn");
    assert_eq!(romkan.to_hiragana("kits"), "きts");
}

#[test]
fn remove_last_char_takes_pending_consonants_along() {
    let romkan = RomKanConverter::default();
    assert_eq!(romkan.remove_last_char("きつn"), "きつ");
    assert_eq!(romkan.remove_last_char("kits"), "ki");
    assert_eq!(romkan.remove_last_char("kitsu"), "ki");
    assert_eq!(romkan.remove_last_char("きつ"), "き");
    assert_eq!(romkan.remove_last_char("a"), "");
    assert_eq!(romkan.remove_last_char("n"), "");
    assert_eq!(romkan.remove_last_char(""), "");
    assert_eq!(romkan.remove_last_char("akka"), "a");
    assert_eq!(romkan.remove_last_char("Ab1"), "A");
    assert_eq!(romkan.remove_last_char("あk1"), "あ");
}

#[test]
fn hiragana_is_left_as_it_is() {
    let romkan = RomKanConverter::default();
    for x in ["きつね", "わたしのなまえ", "ん", "っ"] {
        assert_eq!(romkan.to_hiragana(x), x);
    }
    let once = romkan.to_hiragana("watashinonamae");
    assert_eq!(once, "わたしのなまえ");
    assert_eq!(romkan.to_hiragana(&once), once);
}

#[test]
fn standard_table_spells_the_syllables() {
    let romkan = RomKanConverter::default();
    assert_eq!(romkan.to_hiragana("aiueo"), "あいうえお");
    assert_eq!(romkan.to_hiragana("shachou"), "しゃちょう");
    assert_eq!(romkan.to_hiragana("gakkou"), "がっこう");
    assert_eq!(romkan.to_hiragana("matcha"), "まっちゃ");
    assert_eq!(romkan.to_hiragana("kanpai"), "かんぱい");
    assert_eq!(romkan.to_hiragana("konnnichiha"), "こんにちは");
    assert_eq!(romkan.to_hiragana("nyuugaku"), "にゅうがく");
    assert_eq!(romkan.to_hiragana("ra-men"), "らーめn");
    assert_eq!(romkan.to_hiragana("ji"), "じ");
    assert_eq!(romkan.to_hiragana("zi"), "じ");
    assert_eq!(romkan.to_hiragana("a1b"), "あ1b");
    assert_eq!(romkan.to_hiragana(""), "");
}

#[test]
fn longest_spelling_wins() {
    let mut romkan = RomKanConverter::empty();
    assert!(romkan.add("t", "T"));
    assert!(romkan.add("tsu", "つ"));
    assert!(romkan.add("ts", "TS"));
    assert!(romkan.add("su", "す"));
    assert_eq!(romkan.to_hiragana("tsu"), "つ");
    assert_eq!(romkan.to_hiragana("tsa"), "TSa");
    assert_eq!(romkan.to_hiragana("tasu"), "Taす");
}

#[test]
fn first_of_equal_spellings_wins() {
    let mut romkan = RomKanConverter::empty();
    assert!(romkan.add("a", "あ"));
    assert!(romkan.add("a", "ア"));
    assert_eq!(romkan.to_hiragana("a"), "あ");
}

#[test]
fn unfit_spellings_are_not_taken() {
    let mut romkan = RomKanConverter::empty();
    assert!(!romkan.add("", "あ"));
    assert!(!romkan.add("あ", "a"));
    assert!(!romkan.add("kあ", "a"));
    assert_eq!(romkan.to_hiragana("あka"), "あka");
}

#[test]
fn consonants_are_letters_but_not_vowels() {
    for c in ['k', 'n', 'y', 'Z', 'b'] {
        assert!(consonant(c));
    }
    for c in ['a', 'i', 'u', 'e', 'o', 'A', 'O', '1', '-', 'あ', ' '] {
        assert!(!consonant(c));
    }
}
