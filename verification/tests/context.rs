use libakaza::akaza_builder::{Akaza, AkazaBuilder};
use libakaza::context::{command_by_name, AkazaContext, Command, InputMode, KeyState};
use libakaza::ibus::{to_gboolean, EngineAction};
use libakaza::kana_kanji_dict::KanaKanjiDictBuilder;
use libakaza::kana_trie::KanaTrieBuilder;

fn small_akaza() -> Akaza {
    let mut trie = KanaTrieBuilder::default();
    trie.add(&"わたし".to_string());
    trie.add(&"の".to_string());
    let mut dict = KanaKanjiDictBuilder::default();
    dict.add("わたし", "私/渡し");
    AkazaBuilder::default()
        .kana_trie(trie.build().unwrap())
        .dict(dict.build())
        .build()
}

fn typed(text: &str) -> AkazaContext {
    let mut ctx = AkazaContext::new(small_akaza());
    for c in text.chars() {
        ctx.push_key(c);
    }
    ctx
}

#[test]
fn gboolean_is_one_or_zero() {
    assert_eq!(to_gboolean(true), 1);
    assert_eq!(to_gboolean(false), 0);
}

#[test]
fn typed_keys_are_shown_in_hiragana() {
    assert_eq!(
        typed("kitsune").make_preedit_word(),
        ("きつね".to_string(), "きつね".to_string())
    );
    assert_eq!(
        typed("n").make_preedit_word(),
        ("n".to_string(), "n".to_string())
    );
    assert_eq!(
        typed("きつね").make_preedit_word(),
        ("きつね".to_string(), "きつね".to_string())
    );
}

#[test]
fn preedit_word_is_hiragana_unless_capitalized() {
    assert_eq!(
        typed("watashi").make_preedit_word(),
        ("わたし".to_string(), "わたし".to_string())
    );
    assert_eq!(
        typed("Watashi").make_preedit_word(),
        ("Watashi".to_string(), "Watashi".to_string())
    );
    assert_eq!(
        typed("kits").make_preedit_word(),
        ("きts".to_string(), "きts".to_string())
    );
    assert_eq!(typed("").make_preedit_word(), (String::new(), String::new()));
}

#[test]
fn key_state_follows_the_session() {
    let mut ctx = AkazaContext::new(small_akaza());
    assert_eq!(ctx.get_key_state(), KeyState::PreComposition);
    assert!(!ctx.in_henkan_mode());
    ctx.push_key('a');
    assert_eq!(ctx.get_key_state(), KeyState::Composition);
    let mut ctx = typed("わたしの");
    ctx.update_candidates();
    assert!(ctx.in_henkan_mode());
    assert_eq!(ctx.get_key_state(), KeyState::Conversion);
}

#[test]
fn conversion_is_shown_and_committed() {
    let mut ctx = typed("わたしの");
    let actions = ctx.update_candidates();
    assert_eq!(
        actions,
        vec![
            EngineAction::UpdateAuxiliaryText {
                text: "わたし".to_string(),
                visible: true,
            },
            EngineAction::UpdatePreeditText {
                text: "私の".to_string(),
                underline_to: 6,
                background: Some((6, 9)),
                cursor: 6,
                visible: true,
            },
            EngineAction::UpdateLookupTable { visible: true },
        ]
    );
    assert_eq!(ctx.build_string(), "私の");
    assert_eq!(ctx.candidates(), &vec!["私".to_string(), "渡し".to_string()]);
    assert_eq!(
        ctx._update_lookup_table(),
        EngineAction::UpdateLookupTable { visible: true }
    );
    let actions = ctx.set_input_mode(InputMode::Alnum);
    assert_eq!(
        actions,
        vec![
            EngineAction::CommitText {
                text: "私の".to_string(),
            },
            EngineAction::HidePreeditText,
        ]
    );
    assert_eq!(ctx.get_key_state(), KeyState::PreComposition);
}

#[test]
fn nothing_typed_hides_everything() {
    let mut ctx = AkazaContext::new(small_akaza());
    assert_eq!(
        ctx.update_candidates(),
        vec![
            EngineAction::HideAuxiliaryText,
            EngineAction::HideLookupTable,
            EngineAction::HidePreeditText,
        ]
    );
    assert_eq!(
        ctx.update_preedit_text_before_henkan(),
        vec![EngineAction::HideLookupTable]
    );
    assert_eq!(ctx.build_string(), "");
    assert_eq!(
        ctx.commit_string("x"),
        vec![
            EngineAction::CommitText {
                text: "x".to_string(),
            },
            EngineAction::HidePreeditText,
        ]
    );
}

#[test]
fn erasing_takes_back_the_last_key() {
    let mut ctx = typed("kits");
    assert_eq!(
        ctx.update_preedit_text_before_henkan(),
        vec![EngineAction::UpdatePreeditText {
            text: "きts".to_string(),
            underline_to: 5,
            background: None,
            cursor: 5,
            visible: true,
        }]
    );
    let actions = ctx.erase_character_before_cursor();
    assert_eq!(
        actions,
        vec![EngineAction::UpdatePreeditText {
            text: "き".to_string(),
            underline_to: 3,
            background: None,
            cursor: 3,
            visible: true,
        }]
    );
    assert_eq!(ctx.make_preedit_word().0, "き");
    ctx.erase_character_before_cursor();
    assert_eq!(
        ctx.erase_character_before_cursor(),
        vec![EngineAction::HideLookupTable]
    );
}

#[test]
fn erasing_during_conversion_puts_the_candidates_away() {
    let mut ctx = typed("わたし");
    ctx.update_candidates();
    assert_eq!(ctx.get_key_state(), KeyState::Conversion);
    let actions = ctx.erase_character_before_cursor();
    assert_eq!(
        actions,
        vec![
            EngineAction::HideAuxiliaryText,
            EngineAction::HideLookupTable,
            EngineAction::UpdatePreeditText {
                text: "わたし".to_string(),
                underline_to: 9,
                background: None,
                cursor: 9,
                visible: true,
            },
        ]
    );
    assert_eq!(ctx.get_key_state(), KeyState::Composition);
}

#[test]
fn commands_are_run_by_name() {
    assert_eq!(
        command_by_name("commit_candidate"),
        Some(Command::CommitCandidate)
    );
    assert_eq!(
        command_by_name("set_input_mode_alnum"),
        Some(Command::SetInputModeAlnum)
    );
    assert_eq!(command_by_name("commit"), None);
    let mut ctx = typed("わたし");
    let (known, actions) = ctx.run_callback_by_name("update_candidates");
    assert!(known);
    assert_eq!(actions.len(), 3);
    assert_eq!(ctx.get_key_state(), KeyState::Conversion);
    let (known, actions) = ctx.run_callback_by_name("no_such_command");
    assert!(!known);
    assert!(actions.is_empty());
    assert_eq!(ctx.get_key_state(), KeyState::Conversion);
    let (known, actions) = ctx.run_callback_by_name("commit_candidate");
    assert!(known);
    assert_eq!(
        actions[0],
        EngineAction::CommitText {
            text: "私".to_string()
        }
    );
    let (known, _) = ctx.run_callback_by_name("erase_character_before_cursor");
    assert!(known);
    let (known, _) = ctx.run_callback_by_name("set_input_mode_hiragana");
    assert!(known);
}
