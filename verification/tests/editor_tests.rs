use sc_hsm_recrypt::editor::{Input, KeyInput};

fn text_of(inp: &Input) -> String {
    inp.text.iter().collect()
}

#[test]
fn typing_appends_at_cursor() {
    let mut inp = Input::new();
    for c in "abc".chars() {
        inp.apply_key(KeyInput::Char(c));
    }
    assert_eq!(text_of(&inp), "abc");
    assert_eq!(inp.char_index, 3);
}

#[test]
fn insert_in_the_middle() {
    let mut inp = Input::new();
    for c in "ac".chars() {
        inp.apply_key(KeyInput::Char(c));
    }
    inp.apply_key(KeyInput::Left);
    inp.apply_key(KeyInput::Char('b'));
    assert_eq!(text_of(&inp), "abc");
    assert_eq!(inp.char_index, 2);
}

#[test]
fn backspace_removes_before_cursor() {
    let mut inp = Input::new();
    for c in "abc".chars() {
        inp.apply_key(KeyInput::Char(c));
    }
    inp.apply_key(KeyInput::Left);
    inp.apply_key(KeyInput::Backspace);
    assert_eq!(text_of(&inp), "ac");
    assert_eq!(inp.char_index, 1);
    // at the start, backspace does nothing
    inp.apply_key(KeyInput::Home);
    inp.apply_key(KeyInput::Backspace);
    assert_eq!(text_of(&inp), "ac");
}

#[test]
fn cursor_clamps_at_both_ends() {
    let mut inp = Input::new();
    inp.apply_key(KeyInput::Left);
    assert_eq!(inp.char_index, 0);
    inp.apply_key(KeyInput::Char('x'));
    inp.apply_key(KeyInput::Right);
    inp.apply_key(KeyInput::Right);
    assert_eq!(inp.char_index, 1);
    inp.apply_key(KeyInput::End);
    assert_eq!(inp.char_index, 1);
    inp.apply_key(KeyInput::Home);
    assert_eq!(inp.char_index, 0);
}

#[test]
fn byte_index_counts_multibyte_characters() {
    let mut inp = Input::new();
    inp.apply_key(KeyInput::Char('a')); // 1 byte
    inp.apply_key(KeyInput::Char('é')); // 2 bytes
    inp.apply_key(KeyInput::Char('€')); // 3 bytes
    inp.apply_key(KeyInput::Char('b'));
    inp.apply_key(KeyInput::End);
    assert_eq!(inp.byte_index(), 7);
    inp.apply_key(KeyInput::Left);
    assert_eq!(inp.byte_index(), 6);
    inp.apply_key(KeyInput::Left);
    assert_eq!(inp.byte_index(), 3);
    inp.apply_key(KeyInput::Home);
    assert_eq!(inp.byte_index(), 0);
    // matches the byte offsets of the equivalent string
    let s: String = inp.text.iter().collect();
    assert_eq!(s.char_indices().nth(2).unwrap().0, 3);
}
