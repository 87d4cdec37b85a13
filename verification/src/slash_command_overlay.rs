//! The popup that lists the slash commands matching what the user typed.

use vstd::prelude::*;

use crate::slash_commands::{
    command_table, commands, law_command_table_names, lemma_command_names, lemma_name_lengths, max_name_len,
    name_column_width, typed_name, CommandInfo,
};
use crate::text::{
    ascii_lower_chars, ascii_lower_seq, byte_len, char_utf8_len, chars_of, has_prefix,
    is_white_space, is_whitespace, join_with, lemma_byte_len_bounds, lemma_byte_len_concat, lemma_byte_len_empty,
    lemma_byte_len_single, lemma_text_lt_irreflexive, lemma_text_lt_total,
    lemma_text_lt_transitive, lemma_whitespace_words, split_state, str_lt, string_views, text_lt,
    trim, trim_chars, trim_start, trim_start_str, whitespace_words,
};

verus! {

broadcast use vstd::seq::group_seq_axioms;

/// The popup's parameters: the typed filter (the text after `/`), the
/// selected row, the first row shown, and the rows available.
pub struct SlashCommandOverlay<'a> {
    pub filter: &'a str,
    pub selected: usize,
    pub scroll_offset: usize,
    /// Includes borders.
    pub max_height: usize,
}

/// The views of a sequence of string slices.
pub open spec fn str_views(v: Seq<&str>) -> Seq<Seq<char>> {
    v.map_values(|w: &str| w@)
}

/// One step of greedy line filling: `st` holds the finished lines and the
/// line in progress, `w` is the next word. The line in progress is closed
/// first when it is not empty and the word, with the space before it, would
/// make it longer than `max_width` bytes.
pub open spec fn wrap_step(st: (Seq<Seq<char>>, Seq<char>), w: Seq<char>, max_width: int) -> (
    Seq<Seq<char>>,
    Seq<char>,
) {
    let flush = byte_len(st.1) + byte_len(w) + 1 > max_width && st.1.len() > 0;
    let lines = if flush {
        st.0.push(st.1)
    } else {
        st.0
    };
    let cur = if flush {
        Seq::<char>::empty()
    } else {
        st.1
    };
    (
        lines,
        if cur.len() > 0 {
            cur + seq![' '] + w
        } else {
            cur + w
        },
    )
}

/// Greedy filling of `words` into lines, before the last line is closed.
pub open spec fn wrap_state(words: Seq<Seq<char>>, max_width: int) -> (Seq<Seq<char>>, Seq<char>)
    decreases words.len(),
{
    if words.len() == 0 {
        (Seq::<Seq<char>>::empty(), Seq::<char>::empty())
    } else {
        wrap_step(wrap_state(words.drop_last(), max_width), words.last(), max_width)
    }
}

/// The lines that greedy filling makes of `words`.
pub open spec fn wrap_words(words: Seq<Seq<char>>, max_width: int) -> Seq<Seq<char>> {
    let st = wrap_state(words, max_width);
    if st.1.len() > 0 {
        st.0.push(st.1)
    } else {
        st.0
    }
}

/// The lines into which [`SlashCommandOverlay::wrap_text`] breaks `text`.
pub open spec fn wrapped_lines(text: Seq<char>, max_width: int) -> Seq<Seq<char>> {
    wrap_words(whitespace_words(text), max_width)
}

/// Greedy filling makes no more lines than there are words.
pub proof fn lemma_wrap_count(words: Seq<Seq<char>>, max_width: int)
    ensures
        wrap_words(words, max_width).len() <= words.len(),
{
    lemma_wrap_state_count(words, max_width);
}

proof fn lemma_wrap_state_count(words: Seq<Seq<char>>, max_width: int)
    ensures
        wrap_state(words, max_width).0.len() + (if wrap_state(words, max_width).1.len() > 0 {
            1int
        } else {
            0int
        }) <= words.len(),
    decreases words.len(),
{
    if words.len() > 0 {
        lemma_wrap_state_count(words.drop_last(), max_width);
    }
}

/// A description wraps into no more lines than it has characters.
pub proof fn lemma_wrapped_lines_count(text: Seq<char>, max_width: int)
    ensures
        wrapped_lines(text, max_width).len() <= text.len(),
{
    lemma_whitespace_words(text);
    lemma_wrap_count(whitespace_words(text), max_width);
}

/// Appending a word to the last line of a join is appending it to the join.
proof fn lemma_join_extend_last(x: Seq<Seq<char>>, a: Seq<char>, b: Seq<char>)
    ensures
        join_with(x.push(a + seq![' '] + b), seq![' ']) == join_with(x.push(a), seq![' '])
            + seq![' '] + b,
{
    let y = a + seq![' '] + b;
    if x.len() == 0 {
        assert(x.push(y).len() == 1);
        assert(x.push(a).len() == 1);
        assert(x.push(y)[0] == y);
        assert(x.push(a)[0] == a);
        assert(join_with(x.push(a), seq![' ']) + seq![' '] + b =~= y);
    } else {
        assert(x.push(y).drop_last() =~= x);
        assert(x.push(a).drop_last() =~= x);
        assert(join_with(x.push(y), seq![' ']) =~= join_with(x, seq![' ']) + seq![' '] + y);
        assert(join_with(x.push(a), seq![' ']) =~= join_with(x, seq![' ']) + seq![' '] + a);
        assert(join_with(x.push(y), seq![' ']) =~= join_with(x.push(a), seq![' ']) + seq![' '] + b);
    }
}

/// Joining after one more element adds a separator and that element.
proof fn lemma_join_push(x: Seq<Seq<char>>, y: Seq<char>)
    ensures
        x.len() == 0 ==> join_with(x.push(y), seq![' ']) == y,
        x.len() > 0 ==> join_with(x.push(y), seq![' ']) == join_with(x, seq![' ']) + seq![' '] + y,
{
    assert(x.push(y).drop_last() =~= x);
    if x.len() == 0 {
        assert(x.push(y)[0] == y);
    }
}

/// What greedy filling keeps true: finished lines are non-empty and either
/// fit or are a single word; so is the line in progress; and the lines,
/// joined with spaces, give the words joined with spaces.
proof fn lemma_wrap_state_laws(ws: Seq<Seq<char>>, max_width: int)
    requires
        forall|k: int| 0 <= k < ws.len() ==> (#[trigger] ws[k]).len() > 0,
    ensures
        ({
            let st = wrap_state(ws, max_width);
            &&& forall|k: int|
                0 <= k < st.0.len() ==> (#[trigger] st.0[k]).len() > 0 && (byte_len(st.0[k])
                    <= max_width || ws.contains(st.0[k]))
            &&& ws.len() == 0 ==> st.0.len() == 0 && st.1.len() == 0
            &&& ws.len() > 0 ==> st.1.len() > 0 && (byte_len(st.1) <= max_width || ws.contains(
                st.1,
            )) && join_with(st.0.push(st.1), seq![' ']) == join_with(ws, seq![' '])
        }),
    decreases ws.len(),
{
    if ws.len() > 0 {
        let prev = ws.drop_last();
        let w = ws.last();
        assert forall|k: int| 0 <= k < prev.len() implies (#[trigger] prev[k]).len() > 0 by {
            assert(prev[k] == ws[k]);
        }
        lemma_wrap_state_laws(prev, max_width);
        let p = wrap_state(prev, max_width);
        let st = wrap_state(ws, max_width);
        assert(ws =~= prev.push(w));
        assert forall|x: Seq<char>| prev.contains(x) implies ws.contains(x) by {
            let k = choose|k: int| 0 <= k < prev.len() && prev[k] == x;
            assert(ws[k] == x);
        }
        assert(ws.contains(w)) by {
            assert(ws[ws.len() - 1] == w);
        }
        let flush = byte_len(p.1) + byte_len(w) + 1 > max_width && p.1.len() > 0;
        if prev.len() == 0 {
            assert(st.0 =~= p.0);
            assert(st.1 =~= w);
            lemma_join_push(st.0, st.1);
            lemma_join_push(prev, w);
        } else if flush {
            assert(st.0 == p.0.push(p.1));
            assert(st.1 =~= w);
            lemma_join_push(st.0, w);
            lemma_join_push(prev, w);
            assert forall|k: int| 0 <= k < st.0.len() implies (#[trigger] st.0[k]).len() > 0 && (
            byte_len(st.0[k]) <= max_width || ws.contains(st.0[k])) by {
                if k < p.0.len() {
                    assert(st.0[k] == p.0[k]);
                } else {
                    assert(st.0[k] == p.1);
                }
            }
        } else {
            assert(st.0 == p.0);
            assert(st.1 == p.1 + seq![' '] + w);
            lemma_byte_len_concat(p.1, seq![' ']);
            lemma_byte_len_concat(p.1 + seq![' '], w);
            lemma_byte_len_single(' ');
            lemma_join_extend_last(p.0, p.1, w);
            lemma_join_push(prev, w);
        }
    }
}

/// The lines of a wrapped text are non-empty; a line longer than
/// `max_width` bytes is a single word of the text; and the lines joined with
/// single spaces give the text's words joined with single spaces, so no word
/// is lost, split or moved.
pub proof fn law_wrap_text(text: Seq<char>, max_width: int)
    ensures
        ({
            let lines = wrapped_lines(text, max_width);
            let words = whitespace_words(text);
            &&& forall|k: int|
                0 <= k < lines.len() ==> (#[trigger] lines[k]).len() > 0 && (byte_len(lines[k])
                    <= max_width || words.contains(lines[k]))
            &&& join_with(lines, seq![' ']) == join_with(words, seq![' '])
        }),
{
    let words = whitespace_words(text);
    lemma_whitespace_words(text);
    lemma_wrap_state_laws(words, max_width);
    let st = wrap_state(words, max_width);
    let lines = wrapped_lines(text, max_width);
    if words.len() > 0 {
        assert(lines == st.0.push(st.1));
        assert forall|k: int| 0 <= k < lines.len() implies (#[trigger] lines[k]).len() > 0 && (
        byte_len(lines[k]) <= max_width || words.contains(lines[k])) by {
            if k < st.0.len() {
                assert(lines[k] == st.0[k]);
            }
        }
    } else {
        assert(lines =~= Seq::<Seq<char>>::empty());
        assert(words =~= Seq::<Seq<char>>::empty());
    }
}

/// The characters of `line` before its first space.
pub open spec fn first_word(line: Seq<char>) -> Seq<char>
    decreases line.len(),
{
    if line.len() == 0 || line[0] == ' ' {
        Seq::empty()
    } else {
        seq![line[0]] + first_word(line.drop_first())
    }
}

/// What follows a space, or nothing, leaves the first word unchanged.
proof fn lemma_first_word_append(a: Seq<char>, b: Seq<char>)
    requires
        b.len() == 0 || b[0] == ' ',
    ensures
        first_word(a + b) == first_word(a),
    decreases a.len(),
{
    if a.len() == 0 {
        assert(a + b =~= b);
    } else {
        assert((a + b)[0] == a[0]);
        if a[0] != ' ' {
            assert((a + b).drop_first() =~= a.drop_first() + b);
            lemma_first_word_append(a.drop_first(), b);
        }
    }
}

/// A text without white space is its own first word.
proof fn lemma_first_word_of_word(w: Seq<char>)
    requires
        forall|c: int| 0 <= c < w.len() ==> !is_white_space(#[trigger] w[c]),
    ensures
        first_word(w) == w,
    decreases w.len(),
{
    if w.len() > 0 {
        assert(!is_white_space(w[0]));
        assert(is_white_space(' '));
        let t = w.drop_first();
        assert forall|c: int| 0 <= c < t.len() implies !is_white_space(#[trigger] t[c]) by {
            assert(t[c] == w[c + 1]);
        }
        lemma_first_word_of_word(t);
        assert(seq![w[0]] + t =~= w);
    }
}

/// Greedy filling of words without white space closes a line only when the
/// next line's first word does not fit after it.
proof fn lemma_wrap_state_full(ws: Seq<Seq<char>>, max_width: int)
    requires
        forall|k: int| 0 <= k < ws.len() ==> (#[trigger] ws[k]).len() > 0,
        forall|k: int, c: int|
            0 <= k < ws.len() && 0 <= c < ws[k].len() ==> !is_white_space(#[trigger] ws[k][c]),
    ensures
        forall|i: int|
            #![trigger wrap_state(ws, max_width).0[i]]
            0 <= i < wrap_state(ws, max_width).0.len() - 1 ==> byte_len(
                wrap_state(ws, max_width).0[i],
            ) + 1 + byte_len(first_word(wrap_state(ws, max_width).0[i + 1])) > max_width,
        wrap_state(ws, max_width).0.len() > 0 && wrap_state(ws, max_width).1.len() > 0 ==> byte_len(
            wrap_state(ws, max_width).0.last(),
        ) + 1 + byte_len(first_word(wrap_state(ws, max_width).1)) > max_width,
        (ws.len() > 0) == (wrap_state(ws, max_width).1.len() > 0),
        ws.len() == 0 ==> wrap_state(ws, max_width).0.len() == 0,
    decreases ws.len(),
{
    if ws.len() > 0 {
        let prev = ws.drop_last();
        let w = ws.last();
        assert forall|k: int| 0 <= k < prev.len() implies (#[trigger] prev[k]).len() > 0 by {
            assert(prev[k] == ws[k]);
        }
        assert forall|k: int, c: int|
            0 <= k < prev.len() && 0 <= c < prev[k].len() implies !is_white_space(
            #[trigger] prev[k][c],
        ) by {
            assert(prev[k] == ws[k]);
        }
        assert forall|c: int| 0 <= c < w.len() implies !is_white_space(#[trigger] w[c]) by {
            assert(w == ws[ws.len() - 1]);
            assert(ws[ws.len() - 1][c] == w[c]);
        }
        lemma_wrap_state_full(prev, max_width);
        lemma_first_word_of_word(w);
        assert(w.len() > 0) by {
            assert(w == ws[ws.len() - 1]);
        }
        let p = wrap_state(prev, max_width);
        let st = wrap_state(ws, max_width);
        let flush = byte_len(p.1) + byte_len(w) + 1 > max_width && p.1.len() > 0;
        if flush {
            assert(Seq::<char>::empty() + w =~= w);
            assert(st.1 == w);
            assert(st.0 == p.0.push(p.1));
            assert forall|i: int|
                #![trigger st.0[i]]
                0 <= i < st.0.len() - 1 implies byte_len(st.0[i]) + 1 + byte_len(
                first_word(st.0[i + 1]),
            ) > max_width by {
                if i < p.0.len() - 1 {
                    assert(st.0[i] == p.0[i]);
                    assert(st.0[i + 1] == p.0[i + 1]);
                } else {
                    assert(st.0[i] == p.0.last());
                    assert(st.0[i + 1] == p.1);
                }
            }
        } else if p.1.len() > 0 {
            assert(st.0 == p.0);
            assert(st.1 == p.1 + seq![' '] + w);
            assert(p.1 + seq![' '] + w =~= p.1 + (seq![' '] + w));
            assert((seq![' '] + w)[0] == ' ');
            lemma_first_word_append(p.1, seq![' '] + w);
        } else {
            assert(st.0 == p.0);
            assert(Seq::<char>::empty() + w =~= w);
            assert(st.1 == w);
        }
    }
}

/// Greedy filling closes a line only when the next line's first word does
/// not fit after it: the line, a space and that word take more than
/// `max_width` bytes.
pub proof fn law_wrap_lines_full(text: Seq<char>, max_width: int)
    ensures
        forall|i: int|
            #![trigger wrapped_lines(text, max_width)[i]]
            0 <= i < wrapped_lines(text, max_width).len() - 1 ==> byte_len(
                wrapped_lines(text, max_width)[i],
            ) + 1 + byte_len(first_word(wrapped_lines(text, max_width)[i + 1])) > max_width,
{
    let ws = whitespace_words(text);
    lemma_whitespace_words(text);
    lemma_wrap_state_full(ws, max_width);
    let st = wrap_state(ws, max_width);
    let lines = wrapped_lines(text, max_width);
    if st.1.len() > 0 {
        assert(lines == st.0.push(st.1));
        assert forall|i: int|
            #![trigger lines[i]]
            0 <= i < lines.len() - 1 implies byte_len(lines[i]) + 1 + byte_len(
                first_word(lines[i + 1]),
            ) > max_width by {
            assert(lines[i] == st.0[i]);
            if i < st.0.len() - 1 {
                assert(lines[i + 1] == st.0[i + 1]);
            } else {
                assert(lines[i + 1] == st.1);
            }
        }
    } else {
        assert(lines == st.0);
    }
}

/// Lines that a filling state stands for: the closed ones, and the open one
/// when it holds anything.
spec fn wrap_state_lines(st: (Seq<Seq<char>>, Seq<char>)) -> int {
    st.0.len() + if st.1.len() > 0 {
        1int
    } else {
        0int
    }
}

/// Filling the same non-empty words with a wider limit is never behind: it
/// stands for fewer lines, or as many with an open line no longer in bytes.
proof fn lemma_wrap_state_wider(words: Seq<Seq<char>>, w1: int, w2: int)
    requires
        w1 <= w2,
        forall|k: int| 0 <= k < words.len() ==> (#[trigger] words[k]).len() > 0,
    ensures
        (words.len() > 0) == (wrap_state(words, w1).1.len() > 0),
        (words.len() > 0) == (wrap_state(words, w2).1.len() > 0),
        wrap_state_lines(wrap_state(words, w2)) < wrap_state_lines(wrap_state(words, w1)) || (
        wrap_state_lines(wrap_state(words, w2)) == wrap_state_lines(wrap_state(words, w1))
            && byte_len(wrap_state(words, w2).1) <= byte_len(wrap_state(words, w1).1)),
    decreases words.len(),
{
    if words.len() > 0 {
        let prev = words.drop_last();
        assert forall|k: int| 0 <= k < prev.len() implies (#[trigger] prev[k]).len() > 0 by {
            assert(prev[k] == words[k]);
        }
        lemma_wrap_state_wider(prev, w1, w2);
        let w = words.last();
        assert(w.len() > 0);
        let p1 = wrap_state(prev, w1);
        let p2 = wrap_state(prev, w2);
        lemma_byte_len_concat(p1.1 + seq![' '], w);
        lemma_byte_len_concat(p1.1, seq![' ']);
        lemma_byte_len_concat(p2.1 + seq![' '], w);
        lemma_byte_len_concat(p2.1, seq![' ']);
        lemma_byte_len_single(' ');
        assert(Seq::<char>::empty() + w =~= w);
    }
}

/// A wider limit never wraps a text into more lines.
pub proof fn law_wrap_wider_no_more_lines(text: Seq<char>, w1: int, w2: int)
    requires
        w1 <= w2,
    ensures
        wrapped_lines(text, w2).len() <= wrapped_lines(text, w1).len(),
{
    lemma_whitespace_words(text);
    lemma_wrap_state_wider(whitespace_words(text), w1, w2);
}

/// The words of `text`, each with its length in bytes.
fn split_words<'t>(text: &'t str) -> (res: (Vec<&'t str>, Vec<u128>))
    ensures
        str_views(res.0@) == whitespace_words(text@),
        text@.len() <= usize::MAX,
        res.1@.len() == res.0@.len(),
        forall|k: int|
            0 <= k < res.1@.len() ==> #[trigger] res.1@[k] == byte_len(res.0@[k]@) && res.1@[k]
                <= 4 * text@.len(),
{
    let n = text.unicode_len();
    let mut words: Vec<&'t str> = Vec::new();
    let mut lens: Vec<u128> = Vec::new();
    let mut in_word = false;
    let mut start: usize = 0;
    let mut cur_len: u128 = 0;
    let mut i: usize = 0;
    while i < n
        invariant
            i <= n,
            n == text@.len(),
            str_views(words@) == split_state(text@.take(i as int)).0,
            lens@.len() == words@.len(),
            forall|k: int|
                0 <= k < lens@.len() ==> #[trigger] lens@[k] == byte_len(words@[k]@) && lens@[k]
                    <= 4 * n,
            in_word == (split_state(text@.take(i as int)).1.len() > 0),
            in_word ==> start < i && split_state(text@.take(i as int)).1 == text@.subrange(
                start as int,
                i as int,
            ),
            cur_len == byte_len(split_state(text@.take(i as int)).1),
            cur_len <= 4 * i,
        decreases n - i,
    {
        let c = text.get_char(i);
        let ghost before = text@.take(i as int);
        let ghost after = text@.take(i + 1);
        proof {
            assert(after.drop_last() =~= before);
            assert(after.last() == c);
            lemma_byte_len_empty();
        }
        if is_whitespace(c) {
            if in_word {
                let w = text.substring_char(start, i);
                words.push(w);
                lens.push(cur_len);
                proof {
                    assert(str_views(words@) =~= split_state(before).0.push(split_state(before).1));
                }
                in_word = false;
                cur_len = 0;
            }
        } else {
            if !in_word {
                start = i;
                in_word = true;
                cur_len = 0;
            }
            let cw = char_utf8_len(c);
            proof {
                lemma_byte_len_concat(split_state(before).1, seq![c]);
                assert(split_state(before).1.push(c) =~= split_state(before).1 + seq![c]);
                assert(split_state(after).1 =~= text@.subrange(start as int, i + 1));
            }
            cur_len = cur_len + cw as u128;
        }
        i = i + 1;
    }
    proof {
        assert(text@.take(n as int) =~= text@);
    }
    if in_word {
        let w = text.substring_char(start, n);
        words.push(w);
        lens.push(cur_len);
        proof {
            assert(str_views(words@) =~= split_state(text@).0.push(split_state(text@).1));
        }
    }
    (words, lens)
}

impl<'a> SlashCommandOverlay<'a> {
    /// Breaks `text` into lines at white space, filling each line greedily
    /// with words separated by one space, and starting a new line when the
    /// next word would make the line longer than `max_width` bytes. A word
    /// longer than `max_width` stands on a line of its own.
    pub fn wrap_text(text: &str, max_width: usize) -> (lines: Vec<String>)
        ensures
            string_views(lines@) == wrapped_lines(text@, max_width as int),
    {
        let ghost n = text@.len();
        let (words, lens) = split_words(text);
        let ghost ws = whitespace_words(text@);
        let mut lines: Vec<String> = Vec::new();
        let mut current = String::new();
        let mut cur_len: u128 = 0;
        let mut k: usize = 0;
        proof {
            reveal_strlit(" ");
            lemma_byte_len_empty();
        }
        while k < words.len()
            invariant
                k <= words@.len(),
                str_views(words@) == ws,
                lens@.len() == words@.len(),
                n == text@.len(),
                n <= usize::MAX,
                forall|j: int|
                    0 <= j < lens@.len() ==> #[trigger] lens@[j] == byte_len(words@[j]@)
                        && lens@[j] <= 4 * n,
                string_views(lines@) == wrap_state(ws.take(k as int), max_width as int).0,
                current@ == wrap_state(ws.take(k as int), max_width as int).1,
                cur_len == byte_len(current@),
                cur_len <= max_width + 4 * n,
                " "@ == seq![' '],
            decreases words@.len() - k,
        {
            let w = words[k];
            let wl = lens[k];
            let ghost t = ws.take(k + 1);
            proof {
                assert(t.drop_last() =~= ws.take(k as int));
                assert(t.last() == w@);
                lemma_byte_len_bounds(current@);
            }
            if cur_len + wl + 1 > max_width as u128 && cur_len > 0 {
                lines.push(current);
                current = String::new();
                cur_len = 0;
                proof {
                    assert(string_views(lines@) =~= wrap_state(ws.take(k as int), max_width as int).0.push(
                        wrap_state(ws.take(k as int), max_width as int).1,
                    ));
                }
            }
            let ghost cur_before = current@;
            if cur_len > 0 {
                current.append(" ");
                cur_len = cur_len + 1;
                proof {
                    lemma_byte_len_concat(cur_before, seq![' ']);
                    lemma_byte_len_single(' ');
                }
            }
            let ghost cur_mid = current@;
            current.append(w);
            proof {
                lemma_byte_len_concat(cur_mid, w@);
                lemma_byte_len_bounds(cur_before);
            }
            cur_len = cur_len + wl;
            k = k + 1;
        }
        proof {
            assert(ws.take(words@.len() as int) =~= ws);
            lemma_byte_len_bounds(current@);
        }
        if cur_len > 0 {
            lines.push(current);
            proof {
                assert(string_views(lines@) =~= wrap_state(ws, max_width as int).0.push(
                    wrap_state(ws, max_width as int).1,
                ));
            }
        }
        lines
    }
}


/// The filter as the popup compares it: without surrounding white space,
/// with ASCII letters lower-cased.
pub open spec fn normalized_filter(filter: Seq<char>) -> Seq<char> {
    ascii_lower_seq(trim(filter))
}

/// Whether `cmd` matches a normalized filter: its name after the leading
/// `/`, with ASCII letters lower-cased, starts with the filter.
pub open spec fn command_matches(cmd: CommandInfo, nf: Seq<char>) -> bool {
    nf.is_prefix_of(ascii_lower_seq(cmd.name@.skip(1)))
}

/// What the popup lists for `filter`: the whole table in table order when
/// the normalized filter is empty; otherwise exactly the matching commands,
/// each once, in strictly increasing order of name.
pub open spec fn is_ranked_for(r: Seq<CommandInfo>, filter: Seq<char>) -> bool {
    let nf = normalized_filter(filter);
    if nf.len() == 0 {
        r == command_table()
    } else {
        &&& forall|x: CommandInfo|
            r.contains(x) <==> (command_table().contains(x) && command_matches(x, nf))
        &&& forall|i: int, j: int|
            0 <= i < j < r.len() ==> text_lt((#[trigger] r[i]).name@, (#[trigger] r[j]).name@)
    }
}

/// The commands the popup lists for `filter`: the one sequence that
/// satisfies [`is_ranked_for`] (see [`lemma_ranking_unique`]).
pub open spec fn listed_commands(filter: Seq<char>) -> Seq<CommandInfo> {
    choose|r: Seq<CommandInfo>| is_ranked_for(r, filter)
}

/// Two sequences, each strictly increasing by name, with the same elements,
/// are equal.
proof fn lemma_sorted_by_name_unique(a: Seq<CommandInfo>, b: Seq<CommandInfo>)
    requires
        forall|x: CommandInfo| a.contains(x) <==> b.contains(x),
        forall|i: int, j: int|
            0 <= i < j < a.len() ==> text_lt((#[trigger] a[i]).name@, (#[trigger] a[j]).name@),
        forall|i: int, j: int|
            0 <= i < j < b.len() ==> text_lt((#[trigger] b[i]).name@, (#[trigger] b[j]).name@),
    ensures
        a == b,
    decreases a.len(),
{
    if a.len() == 0 {
        if b.len() > 0 {
            assert(b.contains(b[0]));
        }
        assert(a =~= b);
    } else if b.len() == 0 {
        assert(a.contains(a[0]));
    } else {
        assert(a.contains(a[0]));
        let k = choose|k: int| 0 <= k < b.len() && b[k] == a[0];
        assert(b.contains(b[0]));
        let m = choose|m: int| 0 <= m < a.len() && a[m] == b[0];
        if k > 0 {
            if m > 0 {
                lemma_text_lt_transitive(b[0].name@, a[0].name@, b[0].name@);
            }
            lemma_text_lt_irreflexive(b[0].name@);
        }
        assert(a[0] == b[0]);
        let a1 = a.drop_first();
        let b1 = b.drop_first();
        assert forall|x: CommandInfo| a1.contains(x) <==> b1.contains(x) by {
            if a1.contains(x) {
                let i = choose|i: int| 0 <= i < a1.len() && a1[i] == x;
                assert(a[i + 1] == x);
                assert(a.contains(x));
                let j = choose|j: int| 0 <= j < b.len() && b[j] == x;
                if j == 0 {
                    assert(text_lt(a[0].name@, a[i + 1].name@));
                    lemma_text_lt_irreflexive(a[0].name@);
                }
                assert(b1[j - 1] == x);
            }
            if b1.contains(x) {
                let i = choose|i: int| 0 <= i < b1.len() && b1[i] == x;
                assert(b[i + 1] == x);
                assert(b.contains(x));
                let j = choose|j: int| 0 <= j < a.len() && a[j] == x;
                if j == 0 {
                    assert(text_lt(b[0].name@, b[i + 1].name@));
                    lemma_text_lt_irreflexive(b[0].name@);
                }
                assert(a1[j - 1] == x);
            }
        }
        assert forall|i: int, j: int| 0 <= i < j < a1.len() implies text_lt(
            (#[trigger] a1[i]).name@,
            (#[trigger] a1[j]).name@,
        ) by {
            assert(a1[i] == a[i + 1] && a1[j] == a[j + 1]);
        }
        assert forall|i: int, j: int| 0 <= i < j < b1.len() implies text_lt(
            (#[trigger] b1[i]).name@,
            (#[trigger] b1[j]).name@,
        ) by {
            assert(b1[i] == b[i + 1] && b1[j] == b[j + 1]);
        }
        lemma_sorted_by_name_unique(a1, b1);
        assert(a.len() == b.len());
        assert forall|i: int| 0 <= i < a.len() implies a[i] == b[i] by {
            if i > 0 {
                assert(a[i] == a1[i - 1]);
                assert(b[i] == b1[i - 1]);
            }
        }
        assert(a =~= b);
    }
}

/// For each filter at most one sequence is ranked for it, so a listing is
/// determined by the filter.
pub proof fn lemma_ranking_unique(a: Seq<CommandInfo>, b: Seq<CommandInfo>, filter: Seq<char>)
    requires
        is_ranked_for(a, filter),
        is_ranked_for(b, filter),
    ensures
        a == b,
        a == listed_commands(filter),
{
    if normalized_filter(filter).len() > 0 {
        lemma_sorted_by_name_unique(a, b);
        let c = listed_commands(filter);
        lemma_sorted_by_name_unique(a, c);
    }
}

/// Every command a listing shows runs the command that its name names, and
/// no two listed commands share a name.
pub proof fn law_listing_names(r: Seq<CommandInfo>, filter: Seq<char>)
    requires
        is_ranked_for(r, filter),
    ensures
        forall|i: int| 0 <= i < r.len() ==> (#[trigger] r[i]).name@ == typed_name(r[i].command),
        forall|i: int, j: int|
            0 <= i < r.len() && 0 <= j < r.len() && i != j ==> (#[trigger] r[i]).name@ != (
            #[trigger] r[j]).name@,
{
    law_command_table_names();
    lemma_command_names();
    let t = command_table();
    if normalized_filter(filter).len() > 0 {
        assert forall|i: int| 0 <= i < r.len() implies (#[trigger] r[i]).name@ == typed_name(
            r[i].command,
        ) by {
            assert(r.contains(r[i]));
            assert(t.contains(r[i]));
            let j = choose|j: int| 0 <= j < t.len() && t[j] == r[i];
            assert(t[j].name@ == typed_name(t[j].command));
        }
        assert forall|i: int, j: int|
            0 <= i < r.len() && 0 <= j < r.len() && i != j implies (#[trigger] r[i]).name@ != (
            #[trigger] r[j]).name@ by {
            if i < j {
                assert(text_lt(r[i].name@, r[j].name@));
            } else {
                assert(text_lt(r[j].name@, r[i].name@));
            }
            if r[i].name@ == r[j].name@ {
                lemma_text_lt_irreflexive(r[i].name@);
            }
        }
    }
}

/// A listing has no more commands than the table.
pub proof fn lemma_listing_len(r: Seq<CommandInfo>, filter: Seq<char>)
    requires
        is_ranked_for(r, filter),
    ensures
        r.len() <= command_table().len(),
{
    broadcast use vstd::set::group_set_axioms, vstd::seq_lib::seq_to_set_is_finite;

    if normalized_filter(filter).len() > 0 {
        assert forall|i: int, j: int| 0 <= i < r.len() && 0 <= j < r.len() && i != j implies r[i]
            != r[j] by {
            if i < j {
                assert(text_lt(r[i].name@, r[j].name@));
            } else {
                assert(text_lt(r[j].name@, r[i].name@));
            }
            if r[i] == r[j] {
                lemma_text_lt_irreflexive(r[i].name@);
            }
        }
        assert(r.no_duplicates());
        r.unique_seq_to_set();
        let t = command_table();
        assert(r.to_set().subset_of(t.to_set())) by {
            assert forall|x: CommandInfo| r.to_set().contains(x) implies t.to_set().contains(x) by {
                assert(r.contains(x));
            }
        }
        vstd::set_lib::lemma_len_subset(r.to_set(), t.to_set());
        t.lemma_cardinality_of_set();
    }
}

/// The commands whose lower-cased name, after the leading `/`, starts
/// with `nf`, in table order.
fn matching_commands(table: &Vec<CommandInfo>, nf: &Vec<char>) -> (matches: Vec<CommandInfo>)
    requires
        table@ == command_table(),
    ensures
        forall|x: CommandInfo|
            matches@.contains(x) <==> (command_table().contains(x) && command_matches(x, nf@)),
        forall|a: int, b: int|
            0 <= a < b < matches@.len() ==> (#[trigger] matches@[a]).name@ != (
            #[trigger] matches@[b]).name@,
{
    proof {
        lemma_command_names();
    }
    let mut matches: Vec<CommandInfo> = Vec::new();
    let mut i: usize = 0;
    while i < table.len()
        invariant
            i <= table@.len(),
            table@ == command_table(),
            forall|x: CommandInfo|
                matches@.contains(x) <==> (exists|j: int|
                    0 <= j < i && x == table@[j] && command_matches(x, nf@)),
            forall|a: int, b: int|
                0 <= a < b < matches@.len() ==> (#[trigger] matches@[a]).name@ != (
                #[trigger] matches@[b]).name@,
            forall|a: int|
                0 <= a < matches@.len() ==> exists|j: int|
                    0 <= j < i && #[trigger] matches@[a] == table@[j],
        decreases table@.len() - i,
    {
        proof {
            lemma_command_names();
        }
        let cmd = table[i];
        let len = cmd.name.unicode_len();
        let rest = cmd.name.substring_char(1, len);
        let rest_chars = chars_of(rest);
        let lowered = ascii_lower_chars(&rest_chars);
        let ghost old_matches = matches@;
        proof {
            assert(rest@ =~= cmd.name@.skip(1));
        }
        if has_prefix(&lowered, nf) {
            matches.push(cmd);
            proof {
                assert forall|a: int, b: int|
                    0 <= a < b < matches@.len() implies (#[trigger] matches@[a]).name@ != (
                    #[trigger] matches@[b]).name@ by {
                    if b == matches@.len() - 1 {
                        let j = choose|j: int| 0 <= j < i && #[trigger] old_matches[a] == table@[j];
                        assert(matches@[a] == table@[j]);
                        assert(table@[j].name@ != table@[i as int].name@);
                    } else {
                        assert(old_matches[a] == matches@[a]);
                        assert(old_matches[b] == matches@[b]);
                    }
                }
                assert forall|x: CommandInfo|
                    matches@.contains(x) <==> (exists|j: int|
                        0 <= j < i + 1 && x == table@[j] && command_matches(x, nf@)) by {
                    if matches@.contains(x) {
                        let a = choose|a: int| 0 <= a < matches@.len() && matches@[a] == x;
                        if a < old_matches.len() {
                            assert(old_matches[a] == x);
                            assert(old_matches.contains(x));
                        }
                    }
                    if exists|j: int| 0 <= j < i + 1 && x == table@[j] && command_matches(x, nf@) {
                        let j = choose|j: int|
                            0 <= j < i + 1 && x == table@[j] && command_matches(x, nf@);
                        if j < i {
                            assert(old_matches.contains(x));
                            let a = choose|a: int| 0 <= a < old_matches.len() && old_matches[a] == x;
                            assert(matches@[a] == x);
                        } else {
                            assert(matches@[matches@.len() - 1] == x);
                        }
                    }
                }
            }
        } else {
            proof {
                assert forall|x: CommandInfo|
                    matches@.contains(x) <==> (exists|j: int|
                        0 <= j < i + 1 && x == table@[j] && command_matches(x, nf@)) by {
                    if exists|j: int| 0 <= j < i + 1 && x == table@[j] && command_matches(x, nf@) {
                        let j = choose|j: int|
                            0 <= j < i + 1 && x == table@[j] && command_matches(x, nf@);
                        assert(j < i);
                    }
                }
            }
        }
        i = i + 1;
    }
    proof {
        assert forall|x: CommandInfo|
            matches@.contains(x) <==> (command_table().contains(x) && command_matches(x, nf@)) by {
            if command_table().contains(x) && command_matches(x, nf@) {
                let j = choose|j: int| 0 <= j < command_table().len() && command_table()[j] == x;
                assert(table@[j] == x);
            }
        }
    }
    matches
}

/// `items` ordered by name; names must be pairwise distinct.
fn sort_by_name(items: &Vec<CommandInfo>) -> (sorted: Vec<CommandInfo>)
    requires
        forall|a: int, b: int|
            0 <= a < b < items@.len() ==> (#[trigger] items@[a]).name@ != (
            #[trigger] items@[b]).name@,
    ensures
        forall|x: CommandInfo| sorted@.contains(x) <==> items@.contains(x),
        forall|i: int, j: int|
            0 <= i < j < sorted@.len() ==> text_lt(
                (#[trigger] sorted@[i]).name@,
                (#[trigger] sorted@[j]).name@,
            ),
{
    let mut sorted: Vec<CommandInfo> = Vec::new();
    let mut i: usize = 0;
    while i < items.len()
        invariant
            i <= items@.len(),
            forall|a: int, b: int|
                0 <= a < b < items@.len() ==> (#[trigger] items@[a]).name@ != (
                #[trigger] items@[b]).name@,
            forall|x: CommandInfo|
                sorted@.contains(x) <==> (exists|a: int| 0 <= a < i && x == items@[a]),
            forall|p: int, q: int|
                0 <= p < q < sorted@.len() ==> text_lt(
                    (#[trigger] sorted@[p]).name@,
                    (#[trigger] sorted@[q]).name@,
                ),
        decreases items@.len() - i,
    {
        let x = items[i];
        let mut p: usize = 0;
        while p < sorted.len() && !str_lt(x.name, sorted[p].name)
            invariant
                p <= sorted@.len(),
                forall|q: int| 0 <= q < p ==> !text_lt(x.name@, (#[trigger] sorted@[q]).name@),
            decreases sorted@.len() - p,
        {
            p = p + 1;
        }
        let ghost old_sorted = sorted@;
        proof {
            assert forall|q: int| 0 <= q < p implies text_lt(
                (#[trigger] old_sorted[q]).name@,
                x.name@,
            ) by {
                assert(old_sorted.contains(old_sorted[q]));
                let a = choose|a: int| 0 <= a < i && old_sorted[q] == items@[a];
                assert(items@[a].name@ != items@[i as int].name@);
                lemma_text_lt_total(old_sorted[q].name@, x.name@);
            }
        }
        sorted.insert(p, x);
        proof {
            assert forall|u: int, v: int|
                0 <= u < v < sorted@.len() implies text_lt(
                (#[trigger] sorted@[u]).name@,
                (#[trigger] sorted@[v]).name@,
            ) by {
                if v < p {
                } else if v == p {
                } else if u < p {
                    lemma_text_lt_transitive(old_sorted[u].name@, x.name@, old_sorted[p as int].name@);
                    if v - 1 > p {
                        lemma_text_lt_transitive(
                            old_sorted[u].name@,
                            old_sorted[p as int].name@,
                            old_sorted[v - 1].name@,
                        );
                    }
                } else if u == p {
                    if v - 1 > p {
                        lemma_text_lt_transitive(
                            x.name@,
                            old_sorted[p as int].name@,
                            old_sorted[v - 1].name@,
                        );
                    }
                } else {
                }
            }
            assert forall|y: CommandInfo|
                sorted@.contains(y) <==> (exists|a: int| 0 <= a < i + 1 && y == items@[a]) by {
                if sorted@.contains(y) {
                    let u = choose|u: int| 0 <= u < sorted@.len() && sorted@[u] == y;
                    if u < p {
                        assert(old_sorted[u] == y);
                        assert(old_sorted.contains(y));
                    } else if u > p {
                        assert(old_sorted[u - 1] == y);
                        assert(old_sorted.contains(y));
                    }
                }
                if exists|a: int| 0 <= a < i + 1 && y == items@[a] {
                    let a = choose|a: int| 0 <= a < i + 1 && y == items@[a];
                    if a < i {
                        assert(old_sorted.contains(y));
                        let u = choose|u: int| 0 <= u < old_sorted.len() && old_sorted[u] == y;
                        if u < p {
                            assert(sorted@[u] == y);
                        } else {
                            assert(sorted@[u + 1] == y);
                        }
                    } else {
                        assert(sorted@[p as int] == y);
                    }
                }
            }
        }
        i = i + 1;
    }
    proof {
        assert forall|x: CommandInfo| sorted@.contains(x) <==> items@.contains(x) by {
            if items@.contains(x) {
                let a = choose|a: int| 0 <= a < items@.len() && items@[a] == x;
            }
        }
    }
    sorted
}

impl<'a> SlashCommandOverlay<'a> {
    /// Returns commands filtered and ranked by the filter string.
    pub fn filter_and_rank_commands(filter: &str) -> (r: Vec<CommandInfo>)
        ensures
            r@ == listed_commands(filter@),
            is_ranked_for(r@, filter@),
    {
        let trimmed = trim_chars(filter);
        let nf = ascii_lower_chars(&trimmed);
        let table = commands();
        if nf.len() == 0 {
            proof {
                lemma_ranking_unique(table@, table@, filter@);
            }
            return table;
        }
        let matches = matching_commands(&table, &nf);
        let sorted = sort_by_name(&matches);
        proof {
            lemma_ranking_unique(sorted@, sorted@, filter@);
        }
        sorted
    }

    /// The commands that the popup lists for its filter.
    pub fn filtered_commands(&self) -> (r: Vec<CommandInfo>)
        ensures
            r@ == listed_commands(self.filter@),
            is_ranked_for(r@, self.filter@),
    {
        Self::filter_and_rank_commands(self.filter)
    }

    /// Rows the popup takes: the number of listed commands, at most 12 and
    /// at most `max_height`, but at least one.
    pub fn overlay_height(&self) -> (h: usize)
        ensures
            h == overlay_rows(listed_commands(self.filter@).len() as int, self.max_height as int),
    {
        let matches = self.filtered_commands().len();
        let max = if self.max_height < 12 { self.max_height } else { 12 };
        let m = if matches < max { matches } else { max };
        if m > 1 { m } else { 1 }
    }
}

/// `max(min(listed, min(max_height, 12)), 1)`.
pub open spec fn overlay_rows(listed: int, max_height: int) -> int {
    let cap = if max_height < 12 { max_height } else { 12 };
    let m = if listed < cap { listed } else { cap };
    if m > 1 { m } else { 1 }
}


/// A rectangle of terminal cells.
#[derive(Debug, Clone, Copy, PartialEq, Eq, Structural)]
pub struct Area {
    pub x: u16,
    pub y: u16,
    pub width: u16,
    pub height: u16,
}

/// How a piece of popup text is drawn.
#[derive(Debug, Clone, Copy, PartialEq, Eq, Structural)]
pub enum TextStyle {
    /// The chevron in front of the selected command.
    SelectedChevron,
    /// The blank in front of another command.
    Chevron,
    /// The selected command's name.
    SelectedCommand,
    /// Another command's name.
    Command,
    /// A line of a description.
    Description,
}

/// A string to draw at column `x`, row `y`.
pub struct DrawText {
    pub x: u16,
    pub y: u16,
    pub text: String,
    pub style: TextStyle,
}

impl View for DrawText {
    type V = (int, int, Seq<char>, TextStyle);

    open spec fn view(&self) -> (int, int, Seq<char>, TextStyle) {
        (self.x as int, self.y as int, self.text@, self.style)
    }
}

/// The views of a sequence of draw operations.
pub open spec fn draw_views(v: Seq<DrawText>) -> Seq<(int, int, Seq<char>, TextStyle)> {
    v.map_values(|d: DrawText| d@)
}

/// `a - b`, or 0 when `b > a`.
pub open spec fn sat_sub(a: int, b: int) -> int {
    if a > b {
        a - b
    } else {
        0
    }
}

/// First column of the descriptions in a popup at column `area_x`: a blank
/// column, the chevron and a space, the name column, and a space.
pub open spec fn desc_column(area_x: int) -> int {
    area_x + 1 + 2 + max_name_len(command_table()) + 1
}

/// Rows a command takes: its description's wrapped lines, at least one.
pub open spec fn command_rows(cmd: CommandInfo, desc_width: int) -> int {
    let n = wrapped_lines(cmd.description@, desc_width).len() as int;
    if n > 1 {
        n
    } else {
        1
    }
}

/// The end (exclusive) of the run of commands that fits into `budget` rows
/// when it starts at `start`.
pub open spec fn window_end(r: Seq<CommandInfo>, desc_width: int, start: int, budget: int) -> int
    decreases r.len() - start,
{
    if start < 0 || start >= r.len() || command_rows(r[start], desc_width) > budget {
        start
    } else {
        window_end(r, desc_width, start + 1, budget - command_rows(r[start], desc_width))
    }
}

/// Drawing of the description lines after the first: after considering
/// the lines before index `j`, the operations emitted, the next row, and
/// whether the bottom was reached.
pub open spec fn desc_lines_state(
    lines: Seq<Seq<char>>,
    x: int,
    y0: int,
    bottom: int,
    j: int,
) -> (Seq<(int, int, Seq<char>, TextStyle)>, int, bool)
    decreases j,
{
    if j <= 1 {
        (Seq::empty(), y0, false)
    } else {
        let p = desc_lines_state(lines, x, y0, bottom, j - 1);
        if p.2 || p.1 >= bottom {
            (p.0, p.1, true)
        } else {
            (p.0.push((x, p.1, trim_start(lines[j - 1]), TextStyle::Description)), p.1 + 1, false)
        }
    }
}

/// The first row of a command: chevron, name, and the first description
/// line when there is one.
pub open spec fn row_head(cmd: CommandInfo, is_selected: bool, lines: Seq<Seq<char>>, area_x: int, y: int) -> Seq<
    (int, int, Seq<char>, TextStyle),
> {
    let chevron = (
        area_x + 1,
        y,
        if is_selected {
            "\u{276D}"@
        } else {
            " "@
        },
        if is_selected {
            TextStyle::SelectedChevron
        } else {
            TextStyle::Chevron
        },
    );
    let name = (
        area_x + 3,
        y,
        cmd.name@,
        if is_selected {
            TextStyle::SelectedCommand
        } else {
            TextStyle::Command
        },
    );
    let first = if lines.len() > 0 {
        seq![(area_x + 3 + byte_len(cmd.name@) + 1, y, trim_start(lines[0]), TextStyle::Description)]
    } else {
        Seq::empty()
    };
    seq![chevron, name] + first
}

/// Drawing of the rows `first .. k`: operations, next row, and whether the
/// bottom of `area` was reached.
pub open spec fn rows_state(
    r: Seq<CommandInfo>,
    selected: int,
    desc_width: int,
    area: Area,
    first: int,
    k: int,
) -> (Seq<(int, int, Seq<char>, TextStyle)>, int, bool)
    decreases k - first,
{
    if k <= first {
        (Seq::empty(), area.y as int, false)
    } else {
        let p = rows_state(r, selected, desc_width, area, first, k - 1);
        let bottom = area.y + area.height;
        if p.2 || p.1 >= bottom {
            (p.0, p.1, true)
        } else {
            let cmd = r[k - 1];
            let lines = wrapped_lines(cmd.description@, desc_width);
            let d = desc_lines_state(
                lines,
                area.x + 3 + byte_len(cmd.name@) + 1,
                p.1 + 1,
                bottom,
                lines.len() as int,
            );
            (p.0 + row_head(cmd, k - 1 == selected, lines, area.x as int, p.1) + d.0, d.1, false)
        }
    }
}

/// `min(a, b)`.
pub open spec fn min_int(a: int, b: int) -> int {
    if a < b {
        a
    } else {
        b
    }
}

/// The selected index, clamped to a list of `n` (`n > 0`).
pub open spec fn clamp_selection(selected: int, n: int) -> int {
    if selected < n - 1 {
        selected
    } else {
        n - 1
    }
}

/// Scrolling down from `f`: the first start, not past `sel`, from which the
/// command `sel` fits into `budget` rows.
pub open spec fn scroll_down_start(r: Seq<CommandInfo>, desc_width: int, sel: int, f: int, budget: int) -> int
    decreases sel - f,
{
    if f >= sel || sel < window_end(r, desc_width, f, budget) {
        f
    } else {
        scroll_down_start(r, desc_width, sel, f + 1, budget)
    }
}

/// The first command the popup shows, chosen so that the selected command
/// `sel` is fully visible within `budget` rows: the selected command itself
/// when it is above the scroll position; the scroll position when the
/// selected command fits below it; else the first later start from which it
/// fits.
pub open spec fn first_visible(
    r: Seq<CommandInfo>,
    desc_width: int,
    sel: int,
    scroll_offset: int,
    budget: int,
) -> int {
    if sel < scroll_offset {
        sel
    } else if sel < window_end(r, desc_width, scroll_offset, budget) {
        scroll_offset
    } else {
        scroll_down_start(r, desc_width, sel, scroll_offset, budget)
    }
}

/// What the popup draws into `area` when it lists `r`: nothing for an
/// empty list; otherwise, from the first visible command on (see
/// [`first_visible`], with the rows the selected command may take being at
/// most `max_lines` and the area's height), the commands that fit into
/// `max_lines` rows, each as chevron, name and wrapped description, cut off
/// at the bottom of `area`.
pub open spec fn overlay_plan(
    r: Seq<CommandInfo>,
    selected: int,
    scroll_offset: int,
    max_lines: int,
    area: Area,
) -> Seq<(int, int, Seq<char>, TextStyle)> {
    if r.len() == 0 {
        Seq::empty()
    } else {
        let sel = clamp_selection(selected, r.len() as int);
        let desc_width = sat_sub(area.x + area.width, desc_column(area.x as int));
        let first = first_visible(
            r,
            desc_width,
            sel,
            scroll_offset,
            min_int(max_lines, area.height as int),
        );
        let last = window_end(r, desc_width, first, max_lines);
        rows_state(r, sel, desc_width, area, first, last).0
    }
}

/// Once the bottom is reached, later rows add nothing.
proof fn lemma_rows_state_stops(
    r: Seq<CommandInfo>,
    selected: int,
    desc_width: int,
    area: Area,
    first: int,
    k: int,
    m: int,
)
    requires
        first <= k <= m,
        rows_state(r, selected, desc_width, area, first, k).2 || rows_state(
            r,
            selected,
            desc_width,
            area,
            first,
            k,
        ).1 >= area.y + area.height,
    ensures
        rows_state(r, selected, desc_width, area, first, m).0 == rows_state(
            r,
            selected,
            desc_width,
            area,
            first,
            k,
        ).0,
        rows_state(r, selected, desc_width, area, first, m).1 == rows_state(
            r,
            selected,
            desc_width,
            area,
            first,
            k,
        ).1,
        m > k ==> rows_state(r, selected, desc_width, area, first, m).2,
    decreases m - k,
{
    if m > k {
        lemma_rows_state_stops(r, selected, desc_width, area, first, k, m - 1);
    }
}

/// Once the bottom is reached, later description lines add nothing.
proof fn lemma_desc_state_stops(lines: Seq<Seq<char>>, x: int, y0: int, bottom: int, j: int, m: int)
    requires
        1 <= j <= m,
        desc_lines_state(lines, x, y0, bottom, j).2 || desc_lines_state(lines, x, y0, bottom, j).1
            >= bottom,
    ensures
        desc_lines_state(lines, x, y0, bottom, m).0 == desc_lines_state(lines, x, y0, bottom, j).0,
        desc_lines_state(lines, x, y0, bottom, m).1 == desc_lines_state(lines, x, y0, bottom, j).1,
        m > j ==> desc_lines_state(lines, x, y0, bottom, m).2,
    decreases m - j,
{
    if m > j {
        lemma_desc_state_stops(lines, x, y0, bottom, j, m - 1);
    }
}

/// While drawing description lines the next row stays between its start
/// and the bottom.
proof fn lemma_desc_state_bounds(lines: Seq<Seq<char>>, x: int, y0: int, bottom: int, j: int)
    requires
        y0 <= bottom,
    ensures
        y0 <= desc_lines_state(lines, x, y0, bottom, j).1 <= bottom,
    decreases j,
{
    if j > 1 {
        lemma_desc_state_bounds(lines, x, y0, bottom, j - 1);
    }
}

/// Appends the drawing of one command, starting at row `y`, and returns the
/// row after it.
fn draw_row(
    plan: &mut Vec<DrawText>,
    cmd: CommandInfo,
    is_selected: bool,
    area: Area,
    y: u16,
    desc_width: usize,
) -> (y2: u16)
    requires
        y < area.y + area.height,
        area.y + area.height <= u16::MAX,
        area.x + 3 + byte_len(cmd.name@) + 1 <= u16::MAX,
        byte_len(cmd.name@) <= 13,
    ensures
        ({
            let lines = wrapped_lines(cmd.description@, desc_width as int);
            let d = desc_lines_state(
                lines,
                area.x + 3 + byte_len(cmd.name@) + 1,
                y + 1,
                area.y + area.height,
                lines.len() as int,
            );
            &&& draw_views(final(plan)@) == draw_views(old(plan)@) + row_head(
                cmd,
                is_selected,
                lines,
                area.x as int,
                y as int,
            ) + d.0
            &&& y2 == d.1
        }),
{
    proof {
        reveal_strlit("\u{276D}");
        reveal_strlit(" ");
    }
    let bottom: u16 = area.y + area.height;
    let mut y: u16 = y;
    let wrapped = SlashCommandOverlay::wrap_text(cmd.description, desc_width);
    let chevron_width: usize = 2;
    let chevron = if is_selected {
        "\u{276D}"
    } else {
        " "
    };
    let chevron_style = if is_selected {
        TextStyle::SelectedChevron
    } else {
        TextStyle::Chevron
    };
    let cmd_style = if is_selected {
        TextStyle::SelectedCommand
    } else {
        TextStyle::Command
    };
    let ghost ops_before = draw_views(plan@);
    let mut x: u16 = area.x + 1;
    plan.push(DrawText { x, y, text: chevron.to_owned(), style: chevron_style });
    x = x + chevron_width as u16;
    plan.push(DrawText { x, y, text: cmd.name.to_owned(), style: cmd_style });
    let name_len = cmd.name.len();
    x = x + name_len as u16 + 1;
    if wrapped.len() > 0 {
        let first_desc = trim_start_str(wrapped[0].as_str());
        plan.push(DrawText { x, y, text: first_desc.to_owned(), style: TextStyle::Description });
    }
    proof {
        assert(draw_views(plan@) =~= ops_before + row_head(
            cmd,
            is_selected,
            string_views(wrapped@),
            area.x as int,
            y as int,
        ));
    }
    let ghost lines = string_views(wrapped@);
    let ghost head_ops = draw_views(plan@);
    let ghost y_row = y as int;
    y = y + 1;
    let mut j: usize = 1;
    while j < wrapped.len()
        invariant
            1 <= j,
            j <= wrapped@.len() || j == 1,
            lines == string_views(wrapped@),
            lines.len() == wrapped@.len(),
            bottom as int == area.y + area.height,
            y_row + 1 <= bottom,
            x as int == area.x + 3 + byte_len(cmd.name@) + 1,
            desc_lines_state(lines, x as int, y_row + 1, bottom as int, j as int) == (
                draw_views(plan@).skip(head_ops.len() as int),
                y as int,
                false,
            ),
            head_ops.len() <= plan@.len(),
            draw_views(plan@).take(head_ops.len() as int) == head_ops,
        ensures
            desc_lines_state(lines, x as int, y_row + 1, bottom as int, lines.len() as int).0
                == draw_views(plan@).skip(head_ops.len() as int),
            desc_lines_state(lines, x as int, y_row + 1, bottom as int, lines.len() as int).1
                == y as int,
            head_ops.len() <= plan@.len(),
            draw_views(plan@).take(head_ops.len() as int) == head_ops,
        decreases wrapped@.len() - j,
    {
        if y >= bottom {
            proof {
                lemma_desc_state_stops(
                    lines,
                    x as int,
                    y_row + 1,
                    bottom as int,
                    j as int,
                    lines.len() as int,
                );
            }
            break;
        }
        let line = trim_start_str(wrapped[j].as_str());
        let ghost before = draw_views(plan@);
        plan.push(DrawText { x, y, text: line.to_owned(), style: TextStyle::Description });
        proof {
            assert(draw_views(plan@) =~= before.push(
                (x as int, y as int, trim_start(lines[j as int]), TextStyle::Description),
            ));
            assert(draw_views(plan@).skip(head_ops.len() as int) =~= before.skip(
                head_ops.len() as int,
            ).push((x as int, y as int, trim_start(lines[j as int]), TextStyle::Description)));
            assert(draw_views(plan@).take(head_ops.len() as int) =~= before.take(
                head_ops.len() as int,
            ));
        }
        y = y + 1;
        j = j + 1;
    }
    proof {
        assert(draw_views(plan@) =~= head_ops + draw_views(plan@).skip(head_ops.len() as int));
    }
    y
}


/// The end of the run of commands from `start` whose rows, as `counts`
/// gives them, fit into `budget`.
fn fit_end(
    counts: &Vec<usize>,
    start: usize,
    budget: usize,
    Ghost(r): Ghost<Seq<CommandInfo>>,
    Ghost(dw): Ghost<int>,
) -> (end: usize)
    requires
        counts@.len() == r.len(),
        forall|j: int| 0 <= j < r.len() ==> #[trigger] counts@[j] == command_rows(r[j], dw),
    ensures
        end == window_end(r, dw, start as int, budget as int),
{
    let mut lines_used: usize = 0;
    let mut end = start;
    while end < counts.len()
        invariant
            counts@.len() == r.len(),
            forall|j: int| 0 <= j < r.len() ==> #[trigger] counts@[j] == command_rows(r[j], dw),
            start <= end,
            lines_used <= budget,
            window_end(r, dw, start as int, budget as int) == window_end(
                r,
                dw,
                end as int,
                budget - lines_used,
            ),
        ensures
            window_end(r, dw, start as int, budget as int) == end,
        decreases r.len() - end,
    {
        let needed = counts[end];
        if needed > budget - lines_used {
            break;
        }
        lines_used = lines_used + needed;
        end = end + 1;
    }
    end
}

/// The run starts at `start` and, when `start` is in the list, ends inside it.
proof fn lemma_window_end_bounds(r: Seq<CommandInfo>, dw: int, start: int, budget: int)
    ensures
        window_end(r, dw, start, budget) >= start,
        0 <= start <= r.len() ==> window_end(r, dw, start, budget) <= r.len(),
    decreases r.len() - start,
{
    if !(start < 0 || start >= r.len() || command_rows(r[start], dw) > budget) {
        lemma_window_end_bounds(r, dw, start + 1, budget - command_rows(r[start], dw));
    }
}

impl<'a> SlashCommandOverlay<'a> {
    /// The strings the popup draws into `area`, with their positions and
    /// styles.
    pub fn render_plan(&self, area: Area) -> (plan: Vec<DrawText>)
        requires
            listed_commands(self.filter@).len() > 0 ==> area.x + area.width <= u16::MAX
                && area.y + area.height <= u16::MAX && desc_column(area.x as int) <= u16::MAX,
        ensures
            draw_views(plan@) == overlay_plan(
                listed_commands(self.filter@),
                self.selected as int,
                self.scroll_offset as int,
                self.max_height as int,
                area,
            ),
    {
        let commands = self.filtered_commands();
        let mut plan: Vec<DrawText> = Vec::new();
        if commands.len() == 0 {
            assert(draw_views(plan@) =~= Seq::empty());
            return plan;
        }
        proof {
            lemma_name_lengths();
        }
        let ghost r = commands@;
        let selected = if self.selected < commands.len() - 1 {
            self.selected
        } else {
            commands.len() - 1
        };
        let max_lines = self.max_height;
        let chevron_width: usize = 2;
        let cmd_max_len = name_column_width();
        let desc_start_x: u16 = area.x + 1 + chevron_width as u16 + cmd_max_len as u16 + 1;
        let right: u16 = area.x + area.width;
        let desc_width: usize = right.saturating_sub(desc_start_x) as usize;
        let ghost dw = desc_width as int;
        assert(dw == sat_sub(area.x + area.width, desc_column(area.x as int)));
        // Rows each command takes.
        let mut counts: Vec<usize> = Vec::new();
        let mut i: usize = 0;
        while i < commands.len()
            invariant
                i <= commands@.len(),
                r == commands@,
                dw == desc_width as int,
                counts@.len() == i,
                forall|j: int| 0 <= j < i ==> #[trigger] counts@[j] == command_rows(r[j], dw),
            decreases commands@.len() - i,
        {
            let wrapped = Self::wrap_text(commands[i].description, desc_width);
            let needed = if wrapped.len() > 1 {
                wrapped.len()
            } else {
                1
            };
            proof {
                assert(wrapped@.len() == string_views(wrapped@).len());
            }
            counts.push(needed);
            i = i + 1;
        }
        // The first command shown keeps the selected one fully visible.
        let visible_budget: usize = if max_lines < area.height as usize {
            max_lines
        } else {
            area.height as usize
        };
        let ghost vb = visible_budget as int;
        assert(vb == min_int(max_lines as int, area.height as int));
        let scroll = self.scroll_offset;
        let first = if selected < scroll {
            selected
        } else if selected < fit_end(&counts, scroll, visible_budget, Ghost(r), Ghost(dw)) {
            scroll
        } else {
            let mut f = scroll;
            while f < selected && !(selected < fit_end(&counts, f, visible_budget, Ghost(r), Ghost(dw)))
                invariant
                    scroll <= f <= selected,
                    vb == visible_budget as int,
                    counts@.len() == r.len(),
                    forall|j: int| 0 <= j < r.len() ==> #[trigger] counts@[j] == command_rows(r[j], dw),
                    scroll_down_start(r, dw, selected as int, scroll as int, vb)
                        == scroll_down_start(r, dw, selected as int, f as int, vb),
                ensures
                    scroll_down_start(r, dw, selected as int, scroll as int, vb) == f,
                decreases selected - f,
            {
                f = f + 1;
            }
            f
        };
        assert(first == first_visible(r, dw, selected as int, scroll as int, vb));
        // The commands from there on that fit into `max_lines`.
        let last_visible = fit_end(&counts, first, max_lines, Ghost(r), Ghost(dw));
        proof {
            lemma_window_end_bounds(r, dw, first as int, max_lines as int);
        }
        let bottom: u16 = area.y + area.height;
        let mut y: u16 = area.y;
        let mut idx: usize = first;
        while idx < last_visible
            invariant
                r == commands@,
                r.len() > 0,
                first <= idx <= last_visible,
                last_visible <= r.len(),
                selected == clamp_selection(self.selected as int, r.len() as int),
                bottom == area.y + area.height,
                area.x + area.width <= u16::MAX,
                desc_column(area.x as int) <= u16::MAX,
                max_name_len(command_table()) == 13,
                dw == desc_width,
                forall|j: int|
                    0 <= j < command_table().len() ==> byte_len(
                        (#[trigger] command_table()[j]).name@,
                    ) == command_table()[j].name@.len() && command_table()[j].name@.len() <= 13,
                forall|x: CommandInfo| r.contains(x) ==> command_table().contains(x),
                rows_state(r, selected as int, dw, area, first as int, idx as int) == (
                    draw_views(plan@),
                    y as int,
                    false,
                ),
            ensures
                rows_state(r, selected as int, dw, area, first as int, last_visible as int).0
                    == draw_views(plan@),
            decreases last_visible - idx,
        {
            if y >= bottom {
                proof {
                    lemma_rows_state_stops(
                        r,
                        selected as int,
                        dw,
                        area,
                        first as int,
                        idx as int,
                        last_visible as int,
                    );
                }
                break;
            }
            let cmd = commands[idx];
            proof {
                assert(r.contains(r[idx as int]));
                let t = choose|t: int| 0 <= t < command_table().len() && command_table()[t] == cmd;
                assert(byte_len(command_table()[t].name@) <= 13);
            }
            y = draw_row(&mut plan, cmd, idx == selected, area, y, desc_width);
            idx = idx + 1;
        }
        plan
    }
}


/// The popup takes at least one row and at most 12, and no more than
/// `max_height` when that is at least one.
pub proof fn law_overlay_rows(listed: int, max_height: int)
    requires
        listed >= 0,
    ensures
        1 <= overlay_rows(listed, max_height) <= 12,
        max_height >= 1 ==> overlay_rows(listed, max_height) <= max_height,
        1 <= listed <= 12 && listed <= max_height ==> overlay_rows(listed, max_height) == listed,
{
}

/// Description lines: every operation is in column `x`, on a row from
/// `y0` on and above `bottom`; the next row is not above `y0`.
proof fn lemma_desc_ops_in_rows(lines: Seq<Seq<char>>, x: int, y0: int, bottom: int, j: int)
    ensures
        ({
            let d = desc_lines_state(lines, x, y0, bottom, j);
            &&& d.1 >= y0
            &&& forall|i: int|
                0 <= i < d.0.len() ==> (#[trigger] d.0[i]).0 == x && y0 <= d.0[i].1 < bottom
        }),
    decreases j,
{
    if j > 1 {
        lemma_desc_ops_in_rows(lines, x, y0, bottom, j - 1);
    }
}

/// Rows of the popup: every operation is on a row of `area`, from column
/// `area.x + 1` on; the next row is not above the area.
proof fn lemma_rows_ops_in_area(
    r: Seq<CommandInfo>,
    selected: int,
    desc_width: int,
    area: Area,
    first: int,
    k: int,
)
    ensures
        ({
            let st = rows_state(r, selected, desc_width, area, first, k);
            &&& st.1 >= area.y
            &&& forall|i: int|
                0 <= i < st.0.len() ==> area.y <= (#[trigger] st.0[i]).1 < area.y + area.height
                    && st.0[i].0 >= area.x + 1
        }),
    decreases k - first,
{
    if k > first {
        lemma_rows_ops_in_area(r, selected, desc_width, area, first, k - 1);
        let p = rows_state(r, selected, desc_width, area, first, k - 1);
        let st = rows_state(r, selected, desc_width, area, first, k);
        let bottom = area.y + area.height;
        if !(p.2 || p.1 >= bottom) {
            let cmd = r[k - 1];
            let lines = wrapped_lines(cmd.description@, desc_width);
            let x = area.x + 3 + byte_len(cmd.name@) + 1;
            lemma_desc_ops_in_rows(lines, x, p.1 + 1, bottom, lines.len() as int);
            let d = desc_lines_state(lines, x, p.1 + 1, bottom, lines.len() as int);
            let head = row_head(cmd, k - 1 == selected, lines, area.x as int, p.1);
            assert(st.0 == p.0 + head + d.0);
            assert forall|i: int| 0 <= i < st.0.len() implies area.y <= (#[trigger] st.0[i]).1
                < area.y + area.height && st.0[i].0 >= area.x + 1 by {
                if i < p.0.len() {
                    assert(st.0[i] == p.0[i]);
                } else if i < p.0.len() + head.len() {
                    assert(st.0[i] == head[i - p.0.len()]);
                } else {
                    assert(st.0[i] == d.0[i - p.0.len() - head.len()]);
                }
            }
        }
    }
}

/// The popup draws only on the rows of its area, and never left of the
/// area's second column.
pub proof fn law_overlay_plan_in_area(
    r: Seq<CommandInfo>,
    selected: int,
    scroll_offset: int,
    max_lines: int,
    area: Area,
)
    ensures
        forall|i: int|
            0 <= i < overlay_plan(r, selected, scroll_offset, max_lines, area).len() ==> area.y
                <= (#[trigger] overlay_plan(r, selected, scroll_offset, max_lines, area)[i]).1
                < area.y + area.height && overlay_plan(r, selected, scroll_offset, max_lines, area)[i].0
                >= area.x + 1,
{
    if r.len() > 0 {
        let sel = clamp_selection(selected, r.len() as int);
        let desc_width = sat_sub(area.x + area.width, desc_column(area.x as int));
        let first = first_visible(
            r,
            desc_width,
            sel,
            scroll_offset,
            min_int(max_lines, area.height as int),
        );
        let last = window_end(r, desc_width, first, max_lines);
        lemma_rows_ops_in_area(r, sel, desc_width, area, first, last);
    }
}


/// Rows the commands `from .. to` take.
pub open spec fn rows_span(r: Seq<CommandInfo>, desc_width: int, from: int, to: int) -> int
    decreases to - from,
{
    if to <= from {
        0
    } else {
        rows_span(r, desc_width, from, to - 1) + command_rows(r[to - 1], desc_width)
    }
}

/// `row` stands in `plan` from index `i` on.
pub open spec fn drawn_at(
    plan: Seq<(int, int, Seq<char>, TextStyle)>,
    i: int,
    row: Seq<(int, int, Seq<char>, TextStyle)>,
) -> bool {
    &&& 0 <= i
    &&& i + row.len() <= plan.len()
    &&& plan.subrange(i, i + row.len()) == row
}

/// All of a command's drawing: chevron, name, and every description line,
/// the first on row `y` and the others below it.
pub open spec fn full_row(cmd: CommandInfo, is_selected: bool, lines: Seq<Seq<char>>, area_x: int, y: int) -> Seq<
    (int, int, Seq<char>, TextStyle),
> {
    let x = area_x + 3 + byte_len(cmd.name@) + 1;
    row_head(cmd, is_selected, lines, area_x, y) + Seq::new(
        (if lines.len() > 1 {
            lines.len() - 1
        } else {
            0
        }) as nat,
        |i: int| (x, y + 1 + i, trim_start(lines[i + 1]), TextStyle::Description),
    )
}

proof fn lemma_span_front(r: Seq<CommandInfo>, dw: int, s: int, t: int)
    requires
        s < t,
    ensures
        rows_span(r, dw, s, t) == command_rows(r[s], dw) + rows_span(r, dw, s + 1, t),
    decreases t - s,
{
    assert(rows_span(r, dw, s, s) == 0);
    assert(rows_span(r, dw, s + 1, s + 1) == 0);
    if t > s + 1 {
        lemma_span_front(r, dw, s, t - 1);
        assert(rows_span(r, dw, s + 1, t) == rows_span(r, dw, s + 1, t - 1) + command_rows(
            r[t - 1],
            dw,
        ));
    }
}

proof fn lemma_span_nonneg(r: Seq<CommandInfo>, dw: int, s: int, t: int)
    ensures
        rows_span(r, dw, s, t) >= 0,
    decreases t - s,
{
    if t > s {
        lemma_span_nonneg(r, dw, s, t - 1);
    }
}

/// Every command of a run, with those before it, fits into the budget.
proof fn lemma_window_fits(r: Seq<CommandInfo>, dw: int, start: int, budget: int, i: int)
    requires
        0 <= start <= i < window_end(r, dw, start, budget),
    ensures
        rows_span(r, dw, start, i + 1) <= budget,
    decreases i - start,
{
    let b1 = budget - command_rows(r[start], dw);
    assert(rows_span(r, dw, start, start) == 0);
    if i > start {
        lemma_window_fits(r, dw, start + 1, b1, i);
        lemma_span_front(r, dw, start, i + 1);
    }
}

/// A larger budget never ends a run earlier.
proof fn lemma_window_end_mono(r: Seq<CommandInfo>, dw: int, start: int, b1: int, b2: int)
    requires
        b1 <= b2,
    ensures
        window_end(r, dw, start, b1) <= window_end(r, dw, start, b2),
    decreases r.len() - start,
{
    lemma_window_end_bounds(r, dw, start, b2);
    if !(start < 0 || start >= r.len() || command_rows(r[start], dw) > b1) {
        let c = command_rows(r[start], dw);
        lemma_window_end_mono(r, dw, start + 1, b1 - c, b2 - c);
    }
}

/// A run from a command that fits into the budget includes it.
proof fn lemma_window_includes_start(r: Seq<CommandInfo>, dw: int, start: int, budget: int)
    requires
        0 <= start < r.len(),
        command_rows(r[start], dw) <= budget,
    ensures
        window_end(r, dw, start, budget) > start,
{
    lemma_window_end_bounds(r, dw, start + 1, budget - command_rows(r[start], dw));
}

proof fn lemma_scroll_down_start(r: Seq<CommandInfo>, dw: int, sel: int, f: int, budget: int)
    requires
        f <= sel,
    ensures
        f <= scroll_down_start(r, dw, sel, f, budget) <= sel,
        scroll_down_start(r, dw, sel, f, budget) == sel || sel < window_end(
            r,
            dw,
            scroll_down_start(r, dw, sel, f, budget),
            budget,
        ),
    decreases sel - f,
{
    if !(f >= sel || sel < window_end(r, dw, f, budget)) {
        lemma_scroll_down_start(r, dw, sel, f + 1, budget);
    }
}

/// The first visible command is at or before the selected one, and the
/// selected one lies in the run that fits into the budget from there.
proof fn lemma_first_visible(r: Seq<CommandInfo>, dw: int, sel: int, scroll: int, budget: int)
    requires
        0 <= sel < r.len(),
        scroll >= 0,
        command_rows(r[sel], dw) <= budget,
    ensures
        0 <= first_visible(r, dw, sel, scroll, budget) <= sel,
        sel < window_end(r, dw, first_visible(r, dw, sel, scroll, budget), budget),
{
    lemma_window_includes_start(r, dw, sel, budget);
    if sel >= scroll && !(sel < window_end(r, dw, scroll, budget)) {
        lemma_scroll_down_start(r, dw, sel, scroll, budget);
    }
}

/// With room for them, all description lines after the first are drawn,
/// one per row.
proof fn lemma_desc_full(lines: Seq<Seq<char>>, x: int, y0: int, bottom: int, j: int)
    requires
        1 <= j,
        j <= lines.len() || j == 1,
        y0 + j - 1 <= bottom,
    ensures
        desc_lines_state(lines, x, y0, bottom, j) == (
            Seq::new(
                (j - 1) as nat,
                |i: int| (x, y0 + i, trim_start(lines[i + 1]), TextStyle::Description),
            ),
            y0 + j - 1,
            false,
        ),
    decreases j,
{
    if j == 1 {
        assert(Seq::new(0, |i: int| (x, y0 + i, trim_start(lines[i + 1]), TextStyle::Description))
            =~= Seq::<(int, int, Seq<char>, TextStyle)>::empty());
    } else {
        lemma_desc_full(lines, x, y0, bottom, j - 1);
        assert(Seq::new(
            (j - 1) as nat,
            |i: int| (x, y0 + i, trim_start(lines[i + 1]), TextStyle::Description),
        ) =~= Seq::new(
            (j - 2) as nat,
            |i: int| (x, y0 + i, trim_start(lines[i + 1]), TextStyle::Description),
        ).push((x, y0 + j - 2, trim_start(lines[j - 1]), TextStyle::Description)));
    }
}

/// A command drawn with room below it is drawn in full, and the next one
/// starts right after its rows.
proof fn lemma_row_full(
    r: Seq<CommandInfo>,
    selected: int,
    dw: int,
    area: Area,
    first: int,
    k: int,
)
    requires
        first < k <= r.len(),
        first >= 0,
        !rows_state(r, selected, dw, area, first, k - 1).2,
        rows_state(r, selected, dw, area, first, k - 1).1 + command_rows(r[k - 1], dw) <= area.y
            + area.height,
    ensures
        ({
            let p = rows_state(r, selected, dw, area, first, k - 1);
            let cmd = r[k - 1];
            let lines = wrapped_lines(cmd.description@, dw);
            &&& rows_state(r, selected, dw, area, first, k) == (
                p.0 + full_row(cmd, k - 1 == selected, lines, area.x as int, p.1),
                p.1 + command_rows(cmd, dw),
                false,
            )
        }),
{
    let p = rows_state(r, selected, dw, area, first, k - 1);
    let cmd = r[k - 1];
    let lines = wrapped_lines(cmd.description@, dw);
    let x = area.x + 3 + byte_len(cmd.name@) + 1;
    let bottom = area.y + area.height;
    if lines.len() >= 1 {
        lemma_desc_full(lines, x, p.1 + 1, bottom, lines.len() as int);
    }
    let d = desc_lines_state(lines, x, p.1 + 1, bottom, lines.len() as int);
    let tail = Seq::new(
        (if lines.len() > 1 {
            lines.len() - 1
        } else {
            0
        }) as nat,
        |i: int| (x, p.1 + 1 + i, trim_start(lines[i + 1]), TextStyle::Description),
    );
    assert(d.0 =~= tail);
    assert(p.0 + row_head(cmd, k - 1 == selected, lines, area.x as int, p.1) + d.0 =~= p.0
        + full_row(cmd, k - 1 == selected, lines, area.x as int, p.1));
}

/// While the rows so far fit into the area, drawing has not stopped and
/// the next row is right below them.
proof fn lemma_rows_fit(r: Seq<CommandInfo>, selected: int, dw: int, area: Area, first: int, k: int)
    requires
        0 <= first <= k <= r.len(),
        rows_span(r, dw, first, k) <= area.height,
    ensures
        !rows_state(r, selected, dw, area, first, k).2,
        rows_state(r, selected, dw, area, first, k).1 == area.y + rows_span(r, dw, first, k),
    decreases k - first,
{
    if k > first {
        lemma_span_nonneg(r, dw, first, k - 1);
        lemma_rows_fit(r, selected, dw, area, first, k - 1);
        lemma_row_full(r, selected, dw, area, first, k);
    }
}

/// Drawing more rows only appends.
proof fn lemma_rows_prefix(
    r: Seq<CommandInfo>,
    selected: int,
    dw: int,
    area: Area,
    first: int,
    k: int,
    m: int,
)
    requires
        first <= k <= m,
    ensures
        rows_state(r, selected, dw, area, first, k).0.len() <= rows_state(
            r,
            selected,
            dw,
            area,
            first,
            m,
        ).0.len(),
        rows_state(r, selected, dw, area, first, m).0.subrange(
            0,
            rows_state(r, selected, dw, area, first, k).0.len() as int,
        ) == rows_state(r, selected, dw, area, first, k).0,
    decreases m - k,
{
    let a = rows_state(r, selected, dw, area, first, k).0;
    if m > k {
        lemma_rows_prefix(r, selected, dw, area, first, k, m - 1);
        let b = rows_state(r, selected, dw, area, first, m - 1).0;
        let c = rows_state(r, selected, dw, area, first, m).0;
        assert(c.subrange(0, b.len() as int) =~= b);
        assert(c.subrange(0, a.len() as int) =~= b.subrange(0, a.len() as int));
    } else {
        assert(a.subrange(0, a.len() as int) =~= a);
    }
}

/// Highlighting at operation `i` of a run, for a selected command named
/// `name` in a popup at column `ax`: a highlighted name is `name`, a plain
/// one is not; a chevron is followed by a name highlighted as it is; the
/// chevron column holds only chevrons and the name column only names.
spec fn op_ok(ops: Seq<(int, int, Seq<char>, TextStyle)>, i: int, name: Seq<char>, ax: int) -> bool {
    &&& ops[i].3 is SelectedCommand ==> ops[i].2 == name
    &&& ops[i].3 is Command ==> ops[i].2 != name
    &&& ops[i].3 is SelectedChevron ==> i + 1 < ops.len() && ops[i + 1].3 is SelectedCommand
    &&& ops[i].3 is Chevron ==> i + 1 < ops.len() && ops[i + 1].3 is Command
    &&& ops[i].0 == ax + 1 ==> ops[i].3 is SelectedChevron || ops[i].3 is Chevron
    &&& ops[i].0 == ax + 3 ==> ops[i].3 is SelectedCommand || ops[i].3 is Command
}

/// Every operation of the run is highlighted as [`op_ok`] says.
spec fn highlight_ok(ops: Seq<(int, int, Seq<char>, TextStyle)>, name: Seq<char>, ax: int) -> bool {
    forall|i: int| 0 <= i < ops.len() ==> #[trigger] op_ok(ops, i, name, ax)
}

proof fn lemma_highlight_concat(
    a: Seq<(int, int, Seq<char>, TextStyle)>,
    b: Seq<(int, int, Seq<char>, TextStyle)>,
    name: Seq<char>,
    ax: int,
)
    requires
        highlight_ok(a, name, ax),
        highlight_ok(b, name, ax),
    ensures
        highlight_ok(a + b, name, ax),
{
    let c = a + b;
    assert forall|i: int| 0 <= i < c.len() implies #[trigger] op_ok(c, i, name, ax) by {
        if i < a.len() {
            assert(op_ok(a, i, name, ax));
            assert(c[i] == a[i]);
            if i + 1 < a.len() {
                assert(c[i + 1] == a[i + 1]);
            }
        } else {
            let j = i - a.len();
            assert(op_ok(b, j, name, ax));
            assert(c[i] == b[j]);
            if j + 1 < b.len() {
                assert(c[i + 1] == b[j + 1]);
            }
        }
    }
}

/// A command's first row highlights it exactly when it is the selected one.
proof fn lemma_head_highlight(
    cmd: CommandInfo,
    is_selected: bool,
    lines: Seq<Seq<char>>,
    ax: int,
    y: int,
    name: Seq<char>,
)
    requires
        is_selected ==> cmd.name@ == name,
        !is_selected ==> cmd.name@ != name,
    ensures
        highlight_ok(row_head(cmd, is_selected, lines, ax, y), name, ax),
{
    let h = row_head(cmd, is_selected, lines, ax, y);
    assert(h[0].0 == ax + 1);
    assert(h[1].0 == ax + 3);
    if lines.len() > 0 {
        assert(h[2].3 is Description);
        assert(h[2].0 == ax + 3 + byte_len(cmd.name@) + 1);
    }
    assert forall|i: int| 0 <= i < h.len() implies #[trigger] op_ok(h, i, name, ax) by {
        if i == 0 {
            assert(h[1].0 == ax + 3);
        }
    }
}

/// Description lines are plain descriptions in column `x`.
proof fn lemma_desc_styles(lines: Seq<Seq<char>>, x: int, y0: int, bottom: int, j: int)
    ensures
        forall|i: int|
            0 <= i < desc_lines_state(lines, x, y0, bottom, j).0.len() ==> (#[trigger] desc_lines_state(
                lines,
                x,
                y0,
                bottom,
                j,
            ).0[i]).3 is Description && desc_lines_state(lines, x, y0, bottom, j).0[i].0 == x,
    decreases j,
{
    if j > 1 {
        lemma_desc_styles(lines, x, y0, bottom, j - 1);
        let p = desc_lines_state(lines, x, y0, bottom, j - 1);
        let d = desc_lines_state(lines, x, y0, bottom, j);
        if !(p.2 || p.1 >= bottom) {
            assert forall|i: int| 0 <= i < d.0.len() implies (#[trigger] d.0[i]).3 is Description
                && d.0[i].0 == x by {
                if i < p.0.len() {
                    assert(d.0[i] == p.0[i]);
                }
            }
        }
    }
}

/// Description lines right of the name column highlight nothing.
proof fn lemma_desc_highlight(
    lines: Seq<Seq<char>>,
    x: int,
    y0: int,
    bottom: int,
    j: int,
    name: Seq<char>,
    ax: int,
)
    requires
        x > ax + 3,
    ensures
        highlight_ok(desc_lines_state(lines, x, y0, bottom, j).0, name, ax),
{
    lemma_desc_styles(lines, x, y0, bottom, j);
    let d = desc_lines_state(lines, x, y0, bottom, j).0;
    assert forall|i: int| 0 <= i < d.len() implies #[trigger] op_ok(d, i, name, ax) by {
        assert(d[i].3 is Description && d[i].0 == x);
    }
}

/// The rows drawn so far highlight only the selected command.
proof fn lemma_rows_highlight(
    r: Seq<CommandInfo>,
    sel: int,
    dw: int,
    area: Area,
    first: int,
    k: int,
)
    requires
        0 <= sel < r.len(),
        0 <= first,
        k <= r.len(),
        forall|i: int, j: int|
            0 <= i < r.len() && 0 <= j < r.len() && i != j ==> (#[trigger] r[i]).name@ != (
            #[trigger] r[j]).name@,
    ensures
        highlight_ok(rows_state(r, sel, dw, area, first, k).0, r[sel].name@, area.x as int),
    decreases k - first,
{
    if k > first {
        lemma_rows_highlight(r, sel, dw, area, first, k - 1);
        let p = rows_state(r, sel, dw, area, first, k - 1);
        let bottom = area.y + area.height;
        if !(p.2 || p.1 >= bottom) {
            let cmd = r[k - 1];
            let lines = wrapped_lines(cmd.description@, dw);
            let x = area.x + 3 + byte_len(cmd.name@) + 1;
            let d = desc_lines_state(lines, x, p.1 + 1, bottom, lines.len() as int);
            let h = row_head(cmd, k - 1 == sel, lines, area.x as int, p.1);
            lemma_head_highlight(cmd, k - 1 == sel, lines, area.x as int, p.1, r[sel].name@);
            lemma_desc_highlight(
                lines,
                x,
                p.1 + 1,
                bottom,
                lines.len() as int,
                r[sel].name@,
                area.x as int,
            );
            lemma_highlight_concat(p.0, h, r[sel].name@, area.x as int);
            lemma_highlight_concat(p.0 + h, d.0, r[sel].name@, area.x as int);
        }
    }
}

/// Only the selected command is highlighted: a highlighted name is the
/// selected command's, a plain one is another's; every chevron is followed
/// by its command's name, highlighted as the chevron is; the chevron column
/// holds only chevrons and the name column only names.
pub proof fn law_only_selected_highlighted(
    r: Seq<CommandInfo>,
    filter: Seq<char>,
    selected: int,
    scroll_offset: int,
    max_lines: int,
    area: Area,
)
    requires
        is_ranked_for(r, filter),
        selected >= 0,
        scroll_offset >= 0,
    ensures
        forall|i: int|
            #![trigger overlay_plan(r, selected, scroll_offset, max_lines, area)[i]]
            0 <= i < overlay_plan(r, selected, scroll_offset, max_lines, area).len() ==> {
                let plan = overlay_plan(r, selected, scroll_offset, max_lines, area);
                let sel_name = r[clamp_selection(selected, r.len() as int)].name@;
                &&& plan[i].3 is SelectedCommand ==> plan[i].2 == sel_name
                &&& plan[i].3 is Command ==> plan[i].2 != sel_name
                &&& plan[i].3 is SelectedChevron ==> i + 1 < plan.len() && plan[i
                    + 1].3 is SelectedCommand
                &&& plan[i].3 is Chevron ==> i + 1 < plan.len() && plan[i + 1].3 is Command
                &&& plan[i].0 == area.x + 1 ==> plan[i].3 is SelectedChevron || plan[i].3 is Chevron
                &&& plan[i].0 == area.x + 3 ==> plan[i].3 is SelectedCommand || plan[i].3 is Command
            },
{
    if r.len() > 0 {
        law_listing_names(r, filter);
        let sel = clamp_selection(selected, r.len() as int);
        let dw = sat_sub(area.x + area.width, desc_column(area.x as int));
        let budget = min_int(max_lines, area.height as int);
        let first = first_visible(r, dw, sel, scroll_offset, budget);
        if sel >= scroll_offset && !(sel < window_end(r, dw, scroll_offset, budget)) {
            lemma_scroll_down_start(r, dw, sel, scroll_offset, budget);
        }
        if sel >= scroll_offset {
            lemma_window_end_bounds(r, dw, scroll_offset, budget);
        }
        assert(0 <= first <= sel);
        let last = window_end(r, dw, first, max_lines);
        lemma_window_end_bounds(r, dw, first, max_lines);
        lemma_rows_highlight(r, sel, dw, area, first, last);
        let plan = overlay_plan(r, selected, scroll_offset, max_lines, area);
        assert(plan == rows_state(r, sel, dw, area, first, last).0);
        assert forall|i: int| #![trigger plan[i]] 0 <= i < plan.len() implies {
            &&& plan[i].3 is SelectedCommand ==> plan[i].2 == r[sel].name@
            &&& plan[i].3 is Command ==> plan[i].2 != r[sel].name@
            &&& plan[i].3 is SelectedChevron ==> i + 1 < plan.len() && plan[i + 1].3 is SelectedCommand
            &&& plan[i].3 is Chevron ==> i + 1 < plan.len() && plan[i + 1].3 is Command
            &&& plan[i].0 == area.x + 1 ==> plan[i].3 is SelectedChevron || plan[i].3 is Chevron
            &&& plan[i].0 == area.x + 3 ==> plan[i].3 is SelectedCommand || plan[i].3 is Command
        } by {
            assert(op_ok(plan, i, r[sel].name@, area.x as int));
        }
    } else {
        assert(overlay_plan(r, selected, scroll_offset, max_lines, area).len() == 0);
    }
}

/// The selected command is drawn in full whenever its rows fit into
/// `max_lines` and into the area: chevron, name and every description line,
/// on rows of the area, whatever the scroll position.
pub proof fn law_selected_command_drawn(
    r: Seq<CommandInfo>,
    selected: int,
    scroll_offset: int,
    max_lines: int,
    area: Area,
)
    requires
        r.len() > 0,
        selected >= 0,
        scroll_offset >= 0,
        command_rows(
            r[clamp_selection(selected, r.len() as int)],
            sat_sub(area.x + area.width, desc_column(area.x as int)),
        ) <= min_int(max_lines, area.height as int),
    ensures
        ({
            let sel = clamp_selection(selected, r.len() as int);
            let dw = sat_sub(area.x + area.width, desc_column(area.x as int));
            let plan = overlay_plan(r, selected, scroll_offset, max_lines, area);
            exists|i: int, y: int|
                #[trigger] drawn_at(
                    plan,
                    i,
                    full_row(r[sel], true, wrapped_lines(r[sel].description@, dw), area.x as int, y),
                ) && area.y <= y && y + command_rows(r[sel], dw) <= area.y + area.height
        }),
{
    let sel = clamp_selection(selected, r.len() as int);
    let dw = sat_sub(area.x + area.width, desc_column(area.x as int));
    let vb = min_int(max_lines, area.height as int);
    let first = first_visible(r, dw, sel, scroll_offset, vb);
    let last = window_end(r, dw, first, max_lines);
    lemma_first_visible(r, dw, sel, scroll_offset, vb);
    lemma_window_fits(r, dw, first, vb, sel);
    lemma_window_end_mono(r, dw, first, vb, max_lines);
    lemma_window_end_bounds(r, dw, first, max_lines);
    lemma_span_nonneg(r, dw, first, sel);
    lemma_rows_fit(r, sel, dw, area, first, sel);
    lemma_row_full(r, sel, dw, area, first, sel + 1);
    lemma_rows_prefix(r, sel, dw, area, first, sel + 1, last);
    let p = rows_state(r, sel, dw, area, first, sel);
    let y = p.1;
    let lines = wrapped_lines(r[sel].description@, dw);
    let row = full_row(r[sel], true, lines, area.x as int, y);
    let plan = overlay_plan(r, selected, scroll_offset, max_lines, area);
    let q = rows_state(r, sel, dw, area, first, sel + 1).0;
    let i = p.0.len() as int;
    assert(q == p.0 + row);
    assert(plan == rows_state(r, sel, dw, area, first, last).0);
    assert(plan.subrange(0, q.len() as int) == q);
    assert(plan.subrange(i, i + row.len()) =~= row) by {
        assert forall|j: int| 0 <= j < row.len() implies plan.subrange(i, i + row.len())[j] == row[j] by {
            assert(plan[i + j] == plan.subrange(0, q.len() as int)[i + j]);
            assert(q[i + j] == row[j]);
        }
    }
    assert(drawn_at(plan, i, row));
}

} // verus!
