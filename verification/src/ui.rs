//! State and text helpers for the terminal client.
//!
//! The rendering itself is not part of the library; what lives here is the
//! client's decision logic: cyclic selection through a colour list, the
//! line arithmetic behind wrapping and the scrollbar, and the screen
//! transitions taken when a background stream completes.

use vstd::prelude::*;

use crate::utf8buf::{char_count, lemma_char_count_extend, lemma_char_count_nonneg};

verus! {

/// How the client's input is interpreted at the moment.
#[derive(Clone, Copy, Debug, PartialEq, Eq, Structural)]
pub enum InputMode {
    Normal,
    Editing,
    Processing,
    ColourSelection,
    MainMenu,
    Fetching,
}

/// Which screen the client shows.
#[derive(Clone, Copy, Debug, PartialEq, Eq, Structural)]
pub enum Screen {
    SignIn,
    History,
    Chat,
    ColourSelection,
    MainMenu,
}

/// Whether the client keeps running after handling a key.
#[derive(Clone, Copy, Debug, PartialEq, Eq, Structural)]
pub enum ChatOutcome {
    Continue,
    Quit,
}

/// Whether a menu button holds the focus.
#[derive(Clone, Copy, Debug, PartialEq, Eq, Structural)]
pub enum ButtonState {
    Normal,
    Focused,
}

/// One menu button.
#[derive(Debug)]
pub struct Button {
    pub label: &'static str,
    pub state: ButtonState,
}

impl Button {
    /// A fresh button without focus.
    pub fn new(label: &'static str) -> (r: Button)
        ensures
            r.label == label,
            r.state == ButtonState::Normal,
    {
        Button { label, state: ButtonState::Normal }
    }
}

/// The fresh chat id the server assigns a user's next chat.
#[derive(Clone, Copy, Debug)]
pub struct NextChatIdResponse {
    pub chat_id: i32,
}

/// A fetched transcript as the client reads it off the wire.
#[derive(Debug)]
pub enum FetchResponses {
    Success { messages: Vec<(i32, Vec<u8>, Vec<u8>)> },
    Error { message: Vec<u8> },
}

/// The screen and input mode the client moves to when a background stream
/// reports completion.
pub fn on_stream_complete(screen: Screen, input_mode: InputMode) -> (r: (Screen, InputMode))
    ensures
        r == match screen {
            Screen::SignIn => (Screen::MainMenu, InputMode::MainMenu),
            Screen::History => (Screen::Chat, InputMode::Normal),
            Screen::Chat => (Screen::Chat, InputMode::Normal),
            _ => (screen, input_mode),
        },
{
    match screen {
        Screen::SignIn => (Screen::MainMenu, InputMode::MainMenu),
        Screen::History => (Screen::Chat, InputMode::Normal),
        Screen::Chat => (Screen::Chat, InputMode::Normal),
        _ => (screen, input_mode),
    }
}

/// Position `x` wrapped into `0..len`, for `x` below `2 * len`.
pub open spec fn wrap_index(len: int, x: int) -> int {
    if x < len {
        x
    } else {
        x - len
    }
}

/// Steps a cyclic walk takes forward from `from` to reach `to`: between
/// one and the length, a full lap standing for staying put.
pub open spec fn steps_forward(len: int, from: int, to: int) -> int {
    if to > from {
        to - from
    } else {
        to - from + len
    }
}

/// Steps a cyclic walk takes backward from `from` to reach `to`.
pub open spec fn steps_backward(len: int, from: int, to: int) -> int {
    if to < from {
        from - to
    } else {
        from - to + len
    }
}

/// The nearest unselected index after `index`, walking forward and
/// wrapping; `index` itself when every flag is set.
pub fn next_selectable(selected_flags: &Vec<bool>, index: usize) -> (r: usize)
    requires
        selected_flags@.len() > 0,
        index < selected_flags@.len(),
    ensures
        r < selected_flags@.len(),
        (forall|j: int| 0 <= j < selected_flags@.len() ==> #[trigger] selected_flags@[j]) ==> r
            == index,
        (exists|j: int| 0 <= j < selected_flags@.len() && !(#[trigger] selected_flags@[j])) ==> {
            &&& !selected_flags@[r as int]
            &&& forall|j: int|
                0 <= j < selected_flags@.len() && !(#[trigger] selected_flags@[j])
                    ==> steps_forward(selected_flags@.len() as int, index as int, r as int)
                    <= steps_forward(selected_flags@.len() as int, index as int, j)
        },
{
    let len = selected_flags.len();
    let ghost l = len as int;
    let mut cur = index;
    let mut k: usize = 0;
    while k < len
        invariant
            0 < len == selected_flags@.len(),
            index < len,
            0 <= k <= len,
            cur as int == wrap_index(l, index as int + k as int),
            cur < len,
            l == len as int,
            forall|j: int|
                0 <= j < l && !(#[trigger] selected_flags@[j]) ==> steps_forward(
                    l,
                    index as int,
                    j,
                ) > k as int,
        decreases len - k,
    {
        cur = cur + 1;
        if cur == len {
            cur = 0;
        }
        proof {
            assert(cur as int == wrap_index(l, index as int + k as int + 1));
            assert(steps_forward(l, index as int, cur as int) == k as int + 1);
        }
        if !selected_flags[cur] {
            return cur;
        }
        proof {
            assert forall|j: int|
                0 <= j < l && !(#[trigger] selected_flags@[j]) implies steps_forward(
                l,
                index as int,
                j,
            ) > k as int + 1 by {
                if steps_forward(l, index as int, j) == k as int + 1 {
                    assert(j == cur as int);
                }
            }
        }
        k += 1;
    }
    proof {
        assert forall|j: int| 0 <= j < l implies #[trigger] selected_flags@[j] by {
            if !selected_flags@[j] {
                assert(steps_forward(l, index as int, j) > l);
                assert(steps_forward(l, index as int, j) <= l);
            }
        }
    }
    cur
}

/// The nearest unselected index before `index`, walking backward and
/// wrapping; `index` itself when every flag is set.
pub fn previous_selectable(selected_flags: &Vec<bool>, index: usize) -> (r: usize)
    requires
        selected_flags@.len() > 0,
        index < selected_flags@.len(),
    ensures
        r < selected_flags@.len(),
        (forall|j: int| 0 <= j < selected_flags@.len() ==> #[trigger] selected_flags@[j]) ==> r
            == index,
        (exists|j: int| 0 <= j < selected_flags@.len() && !(#[trigger] selected_flags@[j])) ==> {
            &&& !selected_flags@[r as int]
            &&& forall|j: int|
                0 <= j < selected_flags@.len() && !(#[trigger] selected_flags@[j])
                    ==> steps_backward(selected_flags@.len() as int, index as int, r as int)
                    <= steps_backward(selected_flags@.len() as int, index as int, j)
        },
{
    let len = selected_flags.len();
    let ghost l = len as int;
    let mut cur = index;
    let mut k: usize = 0;
    while k < len
        invariant
            0 < len == selected_flags@.len(),
            index < len,
            0 <= k <= len,
            cur < len,
            steps_backward(l, index as int, cur as int) == if k == 0 {
                l
            } else {
                k as int
            },
            l == len as int,
            forall|j: int|
                0 <= j < l && !(#[trigger] selected_flags@[j]) ==> steps_backward(
                    l,
                    index as int,
                    j,
                ) > k as int,
        decreases len - k,
    {
        if cur == 0 {
            cur = len - 1;
        } else {
            cur = cur - 1;
        }
        proof {
            assert(steps_backward(l, index as int, cur as int) == k as int + 1);
        }
        if !selected_flags[cur] {
            return cur;
        }
        proof {
            assert forall|j: int|
                0 <= j < l && !(#[trigger] selected_flags@[j]) implies steps_backward(
                l,
                index as int,
                j,
            ) > k as int + 1 by {
                if steps_backward(l, index as int, j) == k as int + 1 {
                    assert(j == cur as int);
                }
            }
        }
        k += 1;
    }
    proof {
        assert(cur == index);
        assert forall|j: int| 0 <= j < l implies #[trigger] selected_flags@[j] by {
            if !selected_flags@[j] {
                assert(steps_backward(l, index as int, j) > l);
                assert(steps_backward(l, index as int, j) <= l);
            }
        }
    }
    cur
}

/// Index of the first line feed, or the length when there is none.
pub open spec fn find_nl(s: Seq<u8>) -> int
    decreases s.len(),
{
    if s.len() == 0 {
        0int
    } else if s[0] == 0x0a {
        0int
    } else {
        1 + find_nl(s.subrange(1, s.len() as int))
    }
}

/// Where the first line feed sits: before it everything differs from it.
pub proof fn lemma_find_nl(s: Seq<u8>)
    ensures
        0 <= find_nl(s) <= s.len(),
        find_nl(s) < s.len() ==> s[find_nl(s)] == 0x0a,
        forall|j: int| 0 <= j < find_nl(s) ==> s[j] != 0x0a,
    decreases s.len(),
{
    if s.len() > 0 && s[0] != 0x0a {
        let t = s.subrange(1, s.len() as int);
        lemma_find_nl(t);
        assert forall|j: int| 0 <= j < find_nl(s) implies s[j] != 0x0a by {
            if j > 0 {
                assert(t[j - 1] != 0x0a);
            }
        }
    }
}

/// A line without its trailing carriage return, where it has one.
pub open spec fn strip_cr(line: Seq<u8>) -> Seq<u8> {
    if line.len() > 0 && line.last() == 0x0d {
        line.drop_last()
    } else {
        line
    }
}

/// Rows one line occupies when wrapped to `width` characters: none for an
/// empty line, else one per started row.
pub open spec fn wrapped_line_count(line: Seq<u8>, width: int) -> int
    recommends
        width > 0,
{
    if char_count(line) == 0 {
        0int
    } else {
        (char_count(line) - 1) / width + 1
    }
}

/// Rows a text occupies when split at line feeds, each line stripped of a
/// trailing carriage return and wrapped to `width` characters.
pub open spec fn wrapped_lines(s: Seq<u8>, width: int) -> int
    recommends
        width > 0,
    decreases s.len(),
{
    if s.len() == 0 {
        0int
    } else {
        let k = find_nl_capped(s);
        wrapped_line_count(strip_cr(s.subrange(0, k)), width) + if k == s.len() {
            0int
        } else {
            wrapped_lines(s.subrange(k + 1, s.len() as int), width)
        }
    }
}

/// The first line feed's index, bounded by the length so the splitting
/// recursion terminates on its own.
pub open spec fn find_nl_capped(s: Seq<u8>) -> int {
    if 0 <= find_nl(s) <= s.len() {
        find_nl(s)
    } else {
        s.len() as int
    }
}

/// Wrapped row counts are not negative.
proof fn lemma_wrapped_lines_nonneg(s: Seq<u8>, width: int)
    requires
        width > 0,
    ensures
        wrapped_lines(s, width) >= 0,
    decreases s.len(),
{
    let k = find_nl_capped(s);
    if s.len() > 0 {
        lemma_char_count_nonneg(strip_cr(s.subrange(0, k)));
        if k < s.len() {
            lemma_wrapped_lines_nonneg(s.subrange(k + 1, s.len() as int), width);
        }
    }
}

/// Counts the characters in `text[start..end]`.
fn count_chars_range(text: &Vec<u8>, start: usize, end: usize) -> (r: usize)
    requires
        start <= end <= text@.len(),
    ensures
        r as int == char_count(text@.subrange(start as int, end as int)),
        r <= end - start,
{
    let ghost seg = text@.subrange(start as int, end as int);
    let mut count: usize = 0;
    let mut p: usize = start;
    proof {
        assert(seg.subrange(0, 0) =~= Seq::<u8>::empty());
    }
    while p < end
        invariant
            start <= p <= end <= text@.len(),
            seg == text@.subrange(start as int, end as int),
            count as int == char_count(seg.subrange(0, p - start)),
            count <= p - start,
        decreases end - p,
    {
        let b = text[p];
        proof {
            lemma_char_count_extend(seg, p - start);
            assert(seg[p - start] == b);
        }
        if !(0x80 <= b && b <= 0xbf) {
            count += 1;
        }
        p += 1;
    }
    proof {
        assert(seg.subrange(0, seg.len() as int) =~= seg);
    }
    count
}

/// Rows the text occupies in a window `width` characters wide: lines are
/// split at line feeds, lose a trailing carriage return, and wrap.
pub fn count_wrapped_lines(text: &Vec<u8>, width: u16) -> (r: u16)
    requires
        width > 0,
        wrapped_lines(text@, width as int) <= u16::MAX,
    ensures
        r as int == wrapped_lines(text@, width as int),
{
    let n = text.len();
    let mut total: u16 = 0;
    let mut i: usize = 0;
    proof {
        assert(text@.subrange(0, n as int) =~= text@);
    }
    while i < n
        invariant
            0 <= i <= n == text@.len(),
            width > 0,
            total as int + wrapped_lines(text@.subrange(i as int, n as int), width as int)
                == wrapped_lines(text@, width as int),
            wrapped_lines(text@, width as int) <= u16::MAX,
        decreases n - i,
    {
        let ghost rest = text@.subrange(i as int, n as int);
        let mut j: usize = i;
        while j < n && text[j] != 0x0a
            invariant
                i <= j <= n == text@.len(),
                forall|q: int| i <= q < j ==> text@[q] != 0x0a,
            decreases n - j,
        {
            j += 1;
        }
        proof {
            lemma_find_nl(rest);
            assert forall|q: int| 0 <= q < j - i implies rest[q] != 0x0a by {
                assert(rest[q] == text@[i + q]);
            }
            if j < n {
                assert(rest[j - i] == text@[j as int]);
            }
            assert(find_nl(rest) == j - i) by {
                if find_nl(rest) < j - i {
                    assert(rest[find_nl(rest)] == 0x0a);
                }
                if find_nl(rest) > j - i {
                    assert(j < n);
                    assert(rest[j - i] != 0x0a);
                }
            }
        }
        let end = if j > i && text[j - 1] == 0x0d {
            j - 1
        } else {
            j
        };
        proof {
            let line = rest.subrange(0, j - i);
            assert(line =~= text@.subrange(i as int, j as int));
            if j > i && text@[j - 1] == 0x0d {
                assert(strip_cr(line) =~= text@.subrange(i as int, end as int));
            } else {
                assert(strip_cr(line) =~= text@.subrange(i as int, end as int));
            }
        }
        let chars = count_chars_range(text, i, end);
        let seg: usize = if chars == 0 {
            0
        } else {
            (chars - 1) / (width as usize) + 1
        };
        proof {
            assert(seg as int == wrapped_line_count(
                text@.subrange(i as int, end as int),
                width as int,
            ));
            if j < n {
                lemma_wrapped_lines_nonneg(text@.subrange(j + 1, n as int), width as int);
                assert(rest.subrange(j - i + 1, rest.len() as int) =~= text@.subrange(
                    j + 1,
                    n as int,
                ));
            }
            lemma_char_count_nonneg(text@.subrange(i as int, end as int));
        }
        total = total + (seg as u16);
        if j == n {
            i = n;
            proof {
                assert(text@.subrange(n as int, n as int) =~= Seq::<u8>::empty());
            }
        } else {
            i = j + 1;
        }
    }
    proof {
        assert(text@.subrange(i as int, n as int) =~= Seq::<u8>::empty());
    }
    total
}

/// Height of the scrollbar thumb: the viewport's share of the total, at
/// least one row.
pub open spec fn scrollbar_height_spec(total: int, viewport: int) -> int {
    let h = viewport * viewport / total;
    if h < 1 {
        1int
    } else {
        h
    }
}

/// Where the scrollbar thumb sits for a scroll offset.
pub open spec fn scroll_pos_spec(scroll: int, total: int, viewport: int) -> int {
    scroll * (viewport - scrollbar_height_spec(total, viewport)) / (total - viewport)
}

/// The scrollbar's thumb height and position, or nothing when the text
/// fits the viewport and no scrollbar is drawn.
pub fn scrollbar_geometry(scroll: u16, total_lines: u16, viewport_height: u16) -> (r: Option<
    (u16, u16),
>)
    requires
        viewport_height > 0,
        viewport_height as int * viewport_height as int <= u16::MAX as int,
        scroll as int * viewport_height as int <= u16::MAX as int,
    ensures
        match r {
            Option::None => total_lines <= viewport_height,
            Option::Some((height, pos)) => {
                &&& total_lines > viewport_height
                &&& height as int == scrollbar_height_spec(
                    total_lines as int,
                    viewport_height as int,
                )
                &&& pos as int == scroll_pos_spec(
                    scroll as int,
                    total_lines as int,
                    viewport_height as int,
                )
            },
        },
{
    if total_lines <= viewport_height {
        return Option::None;
    }
    let h = viewport_height * viewport_height / total_lines;
    let height = if h < 1 {
        1
    } else {
        h
    };
    proof {
        assert(viewport_height as int * viewport_height as int <= viewport_height as int
            * total_lines as int) by (nonlinear_arith)
            requires
                0 <= viewport_height as int <= total_lines as int,
        ;
        assert(viewport_height as int * viewport_height as int / (total_lines as int)
            <= viewport_height as int) by (nonlinear_arith)
            requires
                viewport_height as int * viewport_height as int <= viewport_height as int
                    * total_lines as int,
                total_lines as int > 0,
                viewport_height as int >= 0,
        ;
    }
    let max_scroll = total_lines - viewport_height;
    let slack = viewport_height - height;
    proof {
        assert(scroll as int * (slack as int) <= scroll as int * (viewport_height as int))
            by (nonlinear_arith)
            requires
                0 <= slack as int <= viewport_height as int,
                scroll as int >= 0,
        ;
    }
    let pos = scroll * slack / max_scroll;
    Option::Some((height, pos))
}

} // verus!
