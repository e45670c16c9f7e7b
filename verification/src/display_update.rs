//! How the view of a terminal moves when the search bar opens.

use alacritty_terminal::index::Line;
use vstd::prelude::*;

verus! {

/// `Line + usize` of `alacritty_terminal::index` for one line: the number of the line below.
#[verifier::external_body]
fn line_below(line: i32) -> (below: i32)
    requires
        line < i32::MAX,
    ensures
        below == line + 1,
{
    (Line(line) + 1usize).0
}

/// `Line == usize` of `alacritty_terminal::index`, which compares the line with the lower 32 bits
/// of the number, taken as a signed number.
#[verifier::external_body]
fn is_line(line: i32, number: usize) -> (same: bool)
    ensures
        same == (line == number as i32),
{
    Line(line) == number
}

/// Where cursor and search origin lay before the display was updated.
#[derive(Debug, Clone, Copy, PartialEq, Eq, Structural)]
pub struct SearchAnchor {
    pub cursor_at_bottom: bool,
    pub origin_at_bottom: bool,
}

/// Where cursor and search origin lie. The origin is the vi cursor in vi mode, and otherwise at the
/// bottom for a search to the left.
pub fn search_anchor(
    cursor_line: i32,
    screen_lines: usize,
    vi_cursor_line: Option<i32>,
    searches_left: bool,
) -> (anchor: SearchAnchor)
    requires
        cursor_line < i32::MAX,
        vi_cursor_line is Some ==> screen_lines >= 1,
    ensures
        anchor.cursor_at_bottom == (cursor_line + 1 == screen_lines as i32),
        anchor.origin_at_bottom == match vi_cursor_line {
            Some(line) => line == (screen_lines - 1) as i32,
            None => searches_left,
        },
        screen_lines <= i32::MAX ==> anchor.cursor_at_bottom == (cursor_line == screen_lines - 1),
        screen_lines <= i32::MAX ==> (vi_cursor_line matches Some(line) ==> anchor.origin_at_bottom
            == (line == screen_lines - 1)),
{
    let cursor_at_bottom: bool = is_line(line_below(cursor_line), screen_lines);
    let origin_at_bottom: bool = match vi_cursor_line {
        Some(line) => is_line(line, screen_lines - 1),
        None => searches_left,
    };
    SearchAnchor { cursor_at_bottom, origin_at_bottom }
}

/// How far the view scrolls up when the search bar takes the last line, so that what was at the
/// bottom stays in view.
pub fn search_scroll(
    was_searching: bool,
    is_searching: bool,
    display_offset: usize,
    anchor: SearchAnchor,
) -> (delta: Option<i32>)
    ensures
        delta == if was_searching || !is_searching {
            None::<i32>
        } else if display_offset == 0 && anchor.cursor_at_bottom && !anchor.origin_at_bottom {
            Some(1i32)
        } else if display_offset != 0 && anchor.origin_at_bottom {
            Some(-1i32)
        } else {
            None
        },
        delta is Some ==> is_searching && !was_searching,
        delta matches Some(lines) ==> {
            &&& lines == 1 || lines == -1
            &&& 0 <= display_offset + lines
            &&& lines == 1 <==> display_offset == 0
            &&& lines == -1 <==> anchor.origin_at_bottom
        },
{
    if !was_searching && is_searching {
        if display_offset == 0 && anchor.cursor_at_bottom && !anchor.origin_at_bottom {
            return Some(1);
        } else if display_offset != 0 && anchor.origin_at_bottom {
            return Some(-1);
        }
    }
    None
}

} // verus!
