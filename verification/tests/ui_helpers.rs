//! Client-side helpers: cyclic selection, wrapping, screen transitions.

use llm_server::ui::{
    count_wrapped_lines,
    next_selectable,
    on_stream_complete,
    previous_selectable,
    scrollbar_geometry,
    Button,
    ButtonState,
    InputMode,
    Screen,
};

#[test]
fn next_selectable_skips_selected_entries() {
    let flags = vec![false, true, true, false];
    assert_eq!(next_selectable(&flags, 0), 3);
    assert_eq!(next_selectable(&flags, 3), 0);
    let flags = vec![false, false, false];
    assert_eq!(next_selectable(&flags, 0), 1);
    assert_eq!(next_selectable(&flags, 2), 0);
}

#[test]
fn next_selectable_falls_back_when_everything_is_selected() {
    let flags = vec![true, true, true];
    assert_eq!(next_selectable(&flags, 1), 1);
    // The walking index itself may be the only unselected entry.
    let flags = vec![true, false, true];
    assert_eq!(next_selectable(&flags, 1), 1);
}

#[test]
fn previous_selectable_walks_backward() {
    let flags = vec![false, true, true, false];
    assert_eq!(previous_selectable(&flags, 0), 3);
    assert_eq!(previous_selectable(&flags, 3), 0);
    let flags = vec![true, true, true];
    assert_eq!(previous_selectable(&flags, 2), 2);
    let flags = vec![false, false];
    assert_eq!(previous_selectable(&flags, 0), 1);
}

#[test]
fn wrapped_line_count_matches_hand_counts() {
    // Two lines of five characters each wrap to two rows apiece at width
    // three.
    assert_eq!(count_wrapped_lines(&b"hello\nworld".to_vec(), 3), 4);
    assert_eq!(count_wrapped_lines(&b"hello\nworld".to_vec(), 5), 2);
    // An empty text occupies no rows; a blank line none either.
    assert_eq!(count_wrapped_lines(&Vec::new(), 10), 0);
    assert_eq!(count_wrapped_lines(&b"a\n\nb".to_vec(), 10), 2);
    // A trailing newline adds no row.
    assert_eq!(count_wrapped_lines(&b"ab\n".to_vec(), 10), 1);
    // A carriage return before the newline is not a character.
    assert_eq!(count_wrapped_lines(&b"abc\r\nd".to_vec(), 3), 2);
}

#[test]
fn wrapped_line_count_counts_characters_not_bytes() {
    // Four two-byte characters wrap to two rows at width two.
    let text = "éééé".as_bytes().to_vec();
    assert_eq!(text.len(), 8);
    assert_eq!(count_wrapped_lines(&text, 2), 2);
}

#[test]
fn scrollbar_geometry_matches_the_drawing_rules() {
    // Text that fits needs no scrollbar.
    assert_eq!(scrollbar_geometry(0, 10, 10), None);
    assert_eq!(scrollbar_geometry(0, 5, 10), None);
    // 20 lines in a 10-row viewport: thumb of 10 * 10 / 20 = 5 rows.
    assert_eq!(scrollbar_geometry(0, 20, 10), Some((5, 0)));
    // Scrolled to the end, the thumb sits at 10 * (10 - 5) / 10 = 5.
    assert_eq!(scrollbar_geometry(10, 20, 10), Some((5, 5)));
    // A huge text still gets a one-row thumb.
    assert_eq!(scrollbar_geometry(0, 200, 10), Some((1, 0)));
}

#[test]
fn stream_completion_moves_the_screen_on() {
    assert_eq!(
        on_stream_complete(Screen::SignIn, InputMode::Editing),
        (Screen::MainMenu, InputMode::MainMenu)
    );
    assert_eq!(
        on_stream_complete(Screen::History, InputMode::Fetching),
        (Screen::Chat, InputMode::Normal)
    );
    assert_eq!(
        on_stream_complete(Screen::Chat, InputMode::Processing),
        (Screen::Chat, InputMode::Normal)
    );
    assert_eq!(
        on_stream_complete(Screen::MainMenu, InputMode::MainMenu),
        (Screen::MainMenu, InputMode::MainMenu)
    );
}

#[test]
fn fresh_buttons_are_unfocused() {
    let button = Button::new("New Chat");
    assert_eq!(button.label, "New Chat");
    assert!(matches!(button.state, ButtonState::Normal));
}
