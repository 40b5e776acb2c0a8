//! The settings file: lines of `key=value`, read as `BufRead::lines` splits them.
//!
//! The mouse sensitivity is a floating-point number; its value text is handed out as
//! it stands, for the caller to read.

use vstd::prelude::*;
use vstd::string::*;

use crate::client::{parse_i64, parsed_i64, same_text, trim_text, trimmed_text};

verus! {

/// The first position at or after `start` where `t` holds `c`, or the length of `t`.
pub open spec fn first_at(t: Seq<char>, c: char, start: int) -> int
    decreases t.len() - start,
{
    if start < 0 || start >= t.len() {
        t.len() as int
    } else if t[start] == c {
        start
    } else {
        first_at(t, c, start + 1)
    }
}

/// `first_at` finds the first occurrence at or after `start`.
pub proof fn lemma_first_at(t: Seq<char>, c: char, start: int)
    requires
        0 <= start <= t.len(),
    ensures
        start <= first_at(t, c, start) <= t.len(),
        forall|i: int| start <= i < first_at(t, c, start) ==> t[i] != c,
        first_at(t, c, start) < t.len() ==> t[first_at(t, c, start)] == c,
    decreases t.len() - start,
{
    if start < t.len() && t[start] != c {
        lemma_first_at(t, c, start + 1);
    }
}

/// The lines of `t` from position `start` on: split at each `\n`, a `\r` just before
/// the `\n` dropped, and no empty line after a final `\n`.
pub open spec fn lines_from(t: Seq<char>, start: int) -> Seq<Seq<char>>
    decreases t.len() - start,
    via lines_from_decreases
{
    if start < 0 || start >= t.len() {
        Seq::empty()
    } else {
        let e = first_at(t, '\n', start);
        let raw = t.subrange(start, e);
        let line = if e < t.len() && raw.len() > 0 && raw.last() == '\r' {
            raw.drop_last()
        } else {
            raw
        };
        if e < t.len() {
            seq![line] + lines_from(t, e + 1)
        } else {
            seq![line]
        }
    }
}

#[via_fn]
proof fn lines_from_decreases(t: Seq<char>, start: int) {
    if !(start < 0 || start >= t.len()) {
        lemma_first_at(t, '\n', start);
    }
}

/// The key and the value of a line: the text before and after its first `=`; `None`
/// for a line without one.
pub open spec fn line_entry(line: Seq<char>) -> Option<(Seq<char>, Seq<char>)> {
    let i = first_at(line, '=', 0);
    if i < line.len() {
        Some((line.subrange(0, i), line.subrange(i + 1, line.len() as int)))
    } else {
        None
    }
}

/// The value of the last of `lines` whose key, without surrounding white space, is
/// `key`.
pub open spec fn last_value(lines: Seq<Seq<char>>, key: Seq<char>) -> Option<Seq<char>>
    decreases lines.len(),
{
    if lines.len() == 0 {
        None
    } else {
        match line_entry(lines.last()) {
            Some((k, v)) => if trimmed_text(k) == key {
                Some(v)
            } else {
                last_value(lines.drop_last(), key)
            },
            None => last_value(lines.drop_last(), key),
        }
    }
}

/// What `str::parse::<i32>` gives: the decimal value, where it fits an `i32`.
pub open spec fn parsed_i32(s: Seq<char>) -> Option<i32> {
    match parsed_i64(s) {
        Some(v) => if i32::MIN <= v <= i32::MAX {
            Some(v as i32)
        } else {
            None
        },
        None => None,
    }
}

/// The settings a settings file names.
pub struct SettingsText<'a> {
    /// The mouse sensitivity's value text, without surrounding white space.
    pub mouse_sensitivity: Option<&'a str>,
    /// The chunk view distance, where its value reads as an `i32`.
    pub render_chunk_distance: Option<i32>,
}

/// The key of the mouse sensitivity.
pub open spec fn mouse_key() -> Seq<char> {
    "mouse_sensitivity"@
}

/// The key of the chunk view distance.
pub open spec fn distance_key() -> Seq<char> {
    "render_chunk_distance"@
}

/// The text of `s` at character positions `from..to`.
fn slice_chars<'a>(s: &'a str, from: usize, to: usize) -> (r: &'a str)
    requires
        from <= to <= s@.len(),
    ensures
        r@ == s@.subrange(from as int, to as int),
{
    s.substring_char(from, to)
}

/// The first position at or after `start` where `s` holds `c`, or its length.
fn find_char(s: &str, n: usize, c: char, start: usize) -> (i: usize)
    requires
        n == s@.len(),
        start <= n,
    ensures
        i == first_at(s@, c, start as int),
{
    let mut i = start;
    proof {
        lemma_first_at(s@, c, start as int);
    }
    while i < n
        invariant
            n == s@.len(),
            start <= i <= n,
            first_at(s@, c, i as int) == first_at(s@, c, start as int),
        decreases n - i,
    {
        if s.get_char(i) == c {
            return i;
        }
        i = i + 1;
    }
    i
}

/// Reads a settings file: for each of the two keys, the value of the last line whose
/// key (white space trimmed) is that key. The mouse sensitivity's value is handed out
/// trimmed; the chunk view distance's is read as an `i32` (`None` where it does not
/// read as one). Lines without `=` and with other keys are passed over.
pub fn parse_settings_text<'a>(text: &'a str) -> (r: SettingsText<'a>)
    ensures
        match r.mouse_sensitivity {
            Some(v) => last_value(lines_from(text@, 0), mouse_key()) is Some && v@ == trimmed_text(
                last_value(lines_from(text@, 0), mouse_key())->0,
            ),
            None => last_value(lines_from(text@, 0), mouse_key()) is None,
        },
        r.render_chunk_distance == match last_value(lines_from(text@, 0), distance_key()) {
            Some(v) => parsed_i32(trimmed_text(v)),
            None => None,
        },
{
    let mouse_name = "mouse_sensitivity";
    let distance_name = "render_chunk_distance";
    proof {
        reveal_strlit("mouse_sensitivity");
        reveal_strlit("render_chunk_distance");
        assert(mouse_name@ != distance_name@) by {
            assert(mouse_name@[0] != distance_name@[0]);
        }
    }
    let ghost t = text@;
    let n = text.unicode_len();
    let mut mouse: Option<&'a str> = None;
    let mut distance: Option<i32> = None;
    let ghost mut done: Seq<Seq<char>> = Seq::empty();
    let mut pos: usize = 0;
    proof {
        assert(lines_from(t, 0) == done + lines_from(t, 0));
    }
    while pos < n
        invariant
            t == text@,
            n == t.len(),
            0 <= pos <= n,
            mouse_name@ == mouse_key(),
            distance_name@ == distance_key(),
            mouse_key() != distance_key(),
            lines_from(t, 0) == done + lines_from(t, pos as int),
            match mouse {
                Some(v) => last_value(done, mouse_key()) is Some && v@ == trimmed_text(
                    last_value(done, mouse_key())->0,
                ),
                None => last_value(done, mouse_key()) is None,
            },
            distance == match last_value(done, distance_key()) {
                Some(v) => parsed_i32(trimmed_text(v)),
                None => None,
            },
        decreases n - pos,
    {
        let end = find_char(text, n, '\n', pos);
        proof {
            lemma_first_at(t, '\n', pos as int);
        }
        let mut line_stop = end;
        if end < n && end > pos && text.get_char(end - 1) == '\r' {
            line_stop = end - 1;
        }
        let line = slice_chars(text, pos, line_stop);
        let ghost this_line = line@;
        proof {
            let raw = t.subrange(pos as int, end as int);
            if end < n && end > pos && t[end - 1] == '\r' {
                assert(raw.last() == t[end - 1]);
                assert(this_line =~= raw.drop_last());
            } else {
                assert(this_line =~= raw);
            }
            if end < n {
                assert(lines_from(t, pos as int) == seq![this_line] + lines_from(t, end + 1));
            } else {
                assert(lines_from(t, pos as int) == seq![this_line]);
                assert(seq![this_line] =~= seq![this_line] + lines_from(t, end + 1));
            }
            assert(done + lines_from(t, pos as int) =~= done.push(this_line) + lines_from(
                t,
                end + 1,
            ));
        }
        let len = line.unicode_len();
        let eq = find_char(line, len, '=', 0);
        proof {
            lemma_first_at(this_line, '=', 0);
            assert(done.push(this_line).drop_last() =~= done);
            assert(done.push(this_line).last() == this_line);
        }
        if eq < len {
            let key = trim_text(slice_chars(line, 0, eq));
            let value = slice_chars(line, eq + 1, len);
            proof {
                assert(line_entry(this_line) == Some(
                    (this_line.subrange(0, eq as int), this_line.subrange(eq + 1, len as int)),
                ));
            }
            if same_text(key, mouse_name) {
                mouse = Some(trim_text(value));
            } else if same_text(key, distance_name) {
                let parsed = parse_i64(trim_text(value));
                distance = match parsed {
                    Some(v) => {
                        if i32::MIN as i64 <= v && v <= i32::MAX as i64 {
                            Some(v as i32)
                        } else {
                            None
                        }
                    },
                    None => None,
                };
            }
        } else {
            proof {
                assert(line_entry(this_line) is None);
            }
        }
        proof {
            done = done.push(this_line);
        }
        pos = if end < n {
            end + 1
        } else {
            n
        };
    }
    proof {
        assert(lines_from(t, pos as int) == Seq::<Seq<char>>::empty());
        assert(done + Seq::<Seq<char>>::empty() =~= done);
    }
    SettingsText { mouse_sensitivity: mouse, render_chunk_distance: distance }
}

} // verus!
