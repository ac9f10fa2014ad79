//! Layout of what is drawn around the tree: the message box beside it, the
//! pot under it, and the rule that ends a display on a key press.

use vstd::prelude::*;

use vstd::utf8::encode_utf8;

verus! {

// ---------------------------------------------------------------------------
// Message box
// ---------------------------------------------------------------------------

/// Width and height of the text area of the message box for a message of
/// `len` characters on a terminal `max_x` columns wide. A message that fits in
/// a quarter of the width, with room to spare, takes one line; a longer one is
/// given a quarter of the width (rounded down) and one line more per full width.
pub open spec fn spec_box_size(len: int, max_x: int) -> (int, int) {
    if len + 3 <= max_x / 4 {
        (len + 1, 0)
    } else {
        (max_x / 4, len / (max_x / 4))
    }
}

/// The length of a message as the box measures it: its character count,
/// kept in a `u16` (modulo 2^16).
pub open spec fn message_len(message: Seq<char>) -> int {
    (message.len() as u16) as int
}

/// Size of the message box's text area for `message` on a terminal `max_x`
/// columns wide.
pub fn message_box_size(message: &str, max_x: u16) -> (r: (u16, u16))
    requires
        message_len(message@) + 3 <= u16::MAX,
        message_len(message@) + 3 <= max_x / 4 || max_x >= 4,
    ensures
        (r.0 as int, r.1 as int) == spec_box_size(message_len(message@), max_x as int),
{
    let count = message.unicode_len();
    let message_length = count as u16;
    let quarter = max_x / 4;
    if message_length + 3 <= quarter {
        (message_length + 1, 0)
    } else {
        (quarter, message_length / quarter)
    }
}

/// The byte length of a text in UTF-8, as `str::len` reports it.
pub open spec fn byte_len(s: Seq<char>) -> int {
    (encode_utf8(s).len() as usize) as int
}

/// Bytes that the words take on lines, each followed by a space.
pub open spec fn spaced_bytes(words: Seq<Seq<char>>) -> int
    decreases words.len(),
{
    if words.len() == 0 {
        0
    } else {
        spaced_bytes(words.drop_last()) + byte_len(words.last()) + 1
    }
}

/// Laying out `words` in lines of at most `width` bytes: the finished lines,
/// the open line and the byte length of the open line. Each word is followed
/// by a space; a word that would push the open line past `width` closes it
/// (even when it is empty) and starts the next.
pub open spec fn wrap_state(words: Seq<Seq<char>>, width: int) -> (Seq<Seq<char>>, Seq<char>, int)
    decreases words.len(),
{
    if words.len() == 0 {
        (Seq::empty(), Seq::empty(), 0)
    } else {
        let (done, open, len) = wrap_state(words.drop_last(), width);
        let w = words.last();
        if len + byte_len(w) > width {
            (done.push(open), w.push(' '), byte_len(w) + 1)
        } else {
            (done, open + w.push(' '), len + byte_len(w) + 1)
        }
    }
}

/// The lines of the message box for `words`: the finished lines and the open one.
pub open spec fn wrapped_lines(words: Seq<Seq<char>>, width: int) -> Seq<Seq<char>> {
    let (done, open, _len) = wrap_state(words, width);
    done.push(open)
}

/// The views of a list of strings.
pub open spec fn views(strs: Seq<String>) -> Seq<Seq<char>> {
    strs.map_values(|s: String| s@)
}

/// The characters with the Unicode `White_Space` property, which
/// `char::is_whitespace` tests for.
pub open spec fn is_white_space(c: char) -> bool {
    let u = c as u32;
    ||| 0x09 <= u <= 0x0d
    ||| u == 0x20
    ||| u == 0x85
    ||| u == 0xa0
    ||| u == 0x1680
    ||| 0x2000 <= u <= 0x200a
    ||| u == 0x2028
    ||| u == 0x2029
    ||| u == 0x202f
    ||| u == 0x205f
    ||| u == 0x3000
}

/// The words of a text: its maximal runs of characters that are not white
/// space, in order.
pub open spec fn whitespace_words(text: Seq<char>) -> Seq<Seq<char>>
    decreases text.len(),
{
    if text.len() == 0 {
        Seq::empty()
    } else {
        let before = whitespace_words(text.drop_last());
        let c = text.last();
        if is_white_space(c) {
            before
        } else if text.len() >= 2 && !is_white_space(text[text.len() - 2]) && before.len() > 0 {
            before.drop_last().push(before.last().push(c))
        } else {
            before.push(seq![c])
        }
    }
}

/// Calls `str::split_whitespace` and collects the words as strings. Its
/// documentation: the text is split at any amount of `White_Space` characters
/// into sub-slices, and no empty word is returned; that is, the words are the
/// maximal runs of other characters, in order.
#[verifier::external_body]
fn split_words(message: &str) -> (words: Vec<String>)
    ensures
        views(words@) == whitespace_words(message@),
{
    message.split_whitespace().map(|w| w.to_string()).collect()
}

proof fn lemma_open_len_bounded(words: Seq<Seq<char>>, width: int)
    ensures
        0 <= wrap_state(words, width).2 <= spaced_bytes(words),
    decreases words.len(),
{
    if words.len() > 0 {
        lemma_open_len_bounded(words.drop_last(), width);
    }
}

proof fn lemma_spaced_bytes_prefix(words: Seq<Seq<char>>, i: int)
    requires
        0 <= i <= words.len(),
    ensures
        0 <= spaced_bytes(words.take(i)) <= spaced_bytes(words),
    decreases words.len() - i,
{
    if i < words.len() {
        lemma_spaced_bytes_prefix(words, i + 1);
        assert(words.take(i + 1).drop_last() =~= words.take(i));
    } else {
        assert(words.take(i) =~= words);
    }
    lemma_spaced_bytes_nonneg(words.take(i));
}

proof fn lemma_spaced_bytes_nonneg(words: Seq<Seq<char>>)
    ensures
        0 <= spaced_bytes(words),
    decreases words.len(),
{
    if words.len() > 0 {
        lemma_spaced_bytes_nonneg(words.drop_last());
    }
}

/// Lays out `words` in the lines of a message box `box_width` bytes wide.
pub fn wrap_words(words: &Vec<String>, box_width: usize) -> (lines: Vec<String>)
    requires
        spaced_bytes(views(words@)) <= usize::MAX,
    ensures
        views(lines@) == wrapped_lines(views(words@), box_width as int),
{
    let ghost all = views(words@);
    let mut lines: Vec<String> = Vec::new();
    let mut current_line = String::new();
    let mut current_len: usize = 0;
    let mut i: usize = 0;
    proof {
        assert(all.take(0) =~= Seq::<Seq<char>>::empty());
    }
    while i < words.len()
        invariant
            i <= words.len(),
            all == views(words@),
            spaced_bytes(all) <= usize::MAX,
            (views(lines@), current_line@, current_len as int) == wrap_state(all.take(i as int), box_width as int),
        decreases words.len() - i,
    {
        let ghost prefix = all.take(i as int);
        let ghost next = all.take(i as int + 1);
        proof {
            reveal_strlit(" ");
            assert(next.drop_last() =~= prefix);
            assert(next.last() == words@[i as int]@);
            lemma_open_len_bounded(next, box_width as int);
            lemma_open_len_bounded(prefix, box_width as int);
            lemma_spaced_bytes_prefix(all, i as int + 1);
            lemma_spaced_bytes_nonneg(prefix);
        }
        let word = words[i].as_str();
        let word_len = word.len();
        assert(word_len as int == byte_len(words@[i as int]@));
        if current_len + word_len > box_width {
            lines.push(current_line);
            current_line = String::new();
            current_len = 0;
        }
        current_line.append(word);
        current_line.append(" ");
        current_len = current_len + word_len + 1;
        proof {
            assert(views(lines@) =~= wrap_state(next, box_width as int).0);
            assert(current_line@ =~= wrap_state(next, box_width as int).1);
        }
        i = i + 1;
    }
    lines.push(current_line);
    proof {
        assert(all.take(words.len() as int) =~= all);
        assert(views(lines@) =~= wrapped_lines(all, box_width as int));
    }
    lines
}

/// The lines of the message box for `message`, `box_width` bytes wide: its
/// whitespace-separated words laid out as `wrap_words` does.
pub fn message_lines(message: &str, box_width: u16) -> (lines: Option<Vec<String>>)
    ensures
        spaced_bytes(whitespace_words(message@)) <= usize::MAX ==> (lines matches Some(l) && views(
            l@,
        ) == wrapped_lines(whitespace_words(message@), box_width as int)),
        spaced_bytes(whitespace_words(message@)) > usize::MAX ==> lines is None,
{
    let words = split_words(message);
    if fits_in_memory(&words) {
        Some(wrap_words(&words, box_width as usize))
    } else {
        None
    }
}

/// Whether the words, each with a space, take at most `usize::MAX` bytes.
fn fits_in_memory(words: &Vec<String>) -> (r: bool)
    ensures
        r == (spaced_bytes(views(words@)) <= usize::MAX),
{
    let ghost all = views(words@);
    let mut total: usize = 0;
    let mut i: usize = 0;
    proof {
        assert(all.take(0) =~= Seq::<Seq<char>>::empty());
    }
    while i < words.len()
        invariant
            i <= words.len(),
            all == views(words@),
            total as int == spaced_bytes(all.take(i as int)),
        decreases words.len() - i,
    {
        let ghost next = all.take(i as int + 1);
        proof {
            assert(next.drop_last() =~= all.take(i as int));
            lemma_spaced_bytes_prefix(all, i as int + 1);
        }
        let word_len = words[i].as_str().len();
        assert(word_len as int == byte_len(words@[i as int]@));
        assert(next.last() == words@[i as int]@);
        if word_len >= usize::MAX - total {
            proof {
                lemma_spaced_bytes_nonneg(all.take(i as int));
            }
            return false;
        }
        total = total + word_len + 1;
        i = i + 1;
    }
    proof {
        assert(all.take(words.len() as int) =~= all);
    }
    true
}

/// The words one after the other, each followed by a space.
pub open spec fn spaced_text(words: Seq<Seq<char>>) -> Seq<char>
    decreases words.len(),
{
    if words.len() == 0 {
        Seq::empty()
    } else {
        spaced_text(words.drop_last()) + words.last().push(' ')
    }
}

/// The lines one after the other.
pub open spec fn joined_lines(lines: Seq<Seq<char>>) -> Seq<char>
    decreases lines.len(),
{
    if lines.len() == 0 {
        Seq::empty()
    } else {
        joined_lines(lines.drop_last()) + lines.last()
    }
}

/// Laying out a message in lines loses no word, adds none and keeps their
/// order: read one after the other, the lines give back the words, each
/// followed by a space.
pub proof fn lemma_wrapping_keeps_words(words: Seq<Seq<char>>, width: int)
    ensures
        joined_lines(wrapped_lines(words, width)) == spaced_text(words),
    decreases words.len(),
{
    lemma_wrap_state_text(words, width);
    let (done, open, _len) = wrap_state(words, width);
    assert(done.push(open).drop_last() =~= done);
}

proof fn lemma_wrap_state_text(words: Seq<Seq<char>>, width: int)
    ensures
        joined_lines(wrap_state(words, width).0) + wrap_state(words, width).1 == spaced_text(words),
    decreases words.len(),
{
    if words.len() == 0 {
        assert(joined_lines(Seq::<Seq<char>>::empty()) + Seq::<char>::empty() =~= Seq::<char>::empty());
    } else {
        let prev = words.drop_last();
        lemma_wrap_state_text(prev, width);
        let (done, open, len) = wrap_state(prev, width);
        let w = words.last();
        if len + byte_len(w) > width {
            assert(done.push(open).drop_last() =~= done);
            assert(joined_lines(done.push(open)) + w.push(' ') =~= joined_lines(done) + open + w.push(' '));
        } else {
            assert(joined_lines(done) + (open + w.push(' ')) =~= joined_lines(done) + open + w.push(' '));
        }
    }
}

/// The words of consecutive groups, one group after the other.
pub open spec fn joined_groups(groups: Seq<Seq<Seq<char>>>) -> Seq<Seq<char>>
    decreases groups.len(),
{
    if groups.len() == 0 {
        Seq::empty()
    } else {
        joined_groups(groups.drop_last()) + groups.last()
    }
}

/// The groups of words that the lines of the layout hold: the finished
/// groups and the open one.
spec fn wrap_groups(words: Seq<Seq<char>>, width: int) -> (Seq<Seq<Seq<char>>>, Seq<Seq<char>>)
    decreases words.len(),
{
    if words.len() == 0 {
        (Seq::empty(), Seq::empty())
    } else {
        let (done, open) = wrap_groups(words.drop_last(), width);
        let (_d, _o, len) = wrap_state(words.drop_last(), width);
        let w = words.last();
        if len + byte_len(w) > width {
            (done.push(open), seq![w])
        } else {
            (done, open.push(w))
        }
    }
}

/// The lines of a layout are `groups` of consecutive words: each line is its
/// group's words each followed by a space; a group of two or more words takes
/// at most `width` bytes before its trailing space (spaces between words
/// counted); a line is closed only when the next word would not fit; and only
/// the first line can be empty.
pub open spec fn lines_group_words(
    lines: Seq<Seq<char>>,
    groups: Seq<Seq<Seq<char>>>,
    words: Seq<Seq<char>>,
    width: int,
) -> bool {
    &&& groups.len() == lines.len()
    &&& joined_groups(groups) == words
    &&& forall|i: int| 0 <= i < lines.len() ==> lines[i] == spaced_text(#[trigger] groups[i])
    &&& forall|i: int|
        0 <= i < groups.len() && #[trigger] groups[i].len() >= 2 ==> spaced_bytes(groups[i]) <= width + 1
    &&& forall|i: int| 0 < i < groups.len() ==> #[trigger] groups[i].len() >= 1
    &&& forall|i: int|
        0 <= i < groups.len() - 1 ==> spaced_bytes(#[trigger] groups[i]) + byte_len(groups[i + 1][0])
            > width
}

proof fn lemma_wrap_groups(words: Seq<Seq<char>>, width: int)
    ensures
        ({
            let (done, open, len) = wrap_state(words, width);
            let (dg, og) = wrap_groups(words, width);
            &&& dg.len() == done.len()
            &&& forall|i: int| 0 <= i < done.len() ==> done[i] == spaced_text(#[trigger] dg[i])
            &&& open == spaced_text(og)
            &&& len == spaced_bytes(og)
            &&& joined_groups(dg) + og == words
            &&& forall|i: int| 0 <= i < dg.len() && #[trigger] dg[i].len() >= 2 ==> spaced_bytes(dg[i]) <= width + 1
            &&& og.len() >= 2 ==> spaced_bytes(og) <= width + 1
            &&& forall|i: int| 0 < i < dg.len() ==> #[trigger] dg[i].len() >= 1
            &&& dg.len() > 0 ==> og.len() >= 1
            &&& words.len() > 0 ==> og.len() >= 1
            &&& forall|i: int|
                0 <= i < dg.len() - 1 ==> spaced_bytes(#[trigger] dg[i]) + byte_len(dg[i + 1][0]) > width
            &&& dg.len() > 0 ==> spaced_bytes(dg.last()) + byte_len(og[0]) > width
        }),
    decreases words.len(),
{
    if words.len() == 0 {
        assert(joined_groups(Seq::<Seq<Seq<char>>>::empty()) + Seq::<Seq<char>>::empty() =~= words);
    } else {
        let prev = words.drop_last();
        lemma_wrap_groups(prev, width);
        let (done, open, len) = wrap_state(prev, width);
        let (dg, og) = wrap_groups(prev, width);
        let w = words.last();
        assert(words =~= prev.push(w));
        if len + byte_len(w) > width {
            let dg2 = dg.push(og);
            let og2 = seq![w];
            assert(dg2.drop_last() =~= dg);
            assert(og2.drop_last() =~= Seq::<Seq<char>>::empty());
            assert(og2.last() == w);
            assert(spaced_text(Seq::<Seq<char>>::empty()) =~= Seq::<char>::empty());
            assert(spaced_bytes(Seq::<Seq<char>>::empty()) == 0);
            assert(spaced_text(og2) =~= w.push(' '));
            assert(spaced_bytes(og2) == byte_len(w) + 1);
            assert(joined_groups(dg2) + og2 =~= (joined_groups(dg) + og).push(w));
            assert forall|i: int| 0 <= i < done.push(open).len() implies done.push(open)[i] == spaced_text(
                #[trigger] dg2[i]) by {
                if i < done.len() {
                    assert(dg2[i] == dg[i]);
                }
            }
            assert forall|i: int| 0 <= i < dg2.len() - 1 implies spaced_bytes(#[trigger] dg2[i]) + byte_len(
                dg2[i + 1][0]) > width by {
                if i < dg.len() - 1 {
                    assert(dg2[i] == dg[i] && dg2[i + 1] == dg[i + 1]);
                } else {
                    assert(dg2[i] == dg.last());
                    assert(dg2[i + 1] == og);
                }
            }
            assert(forall|i: int| 0 < i < dg.len() ==> dg2[i] == dg[i]);
        } else {
            let og2 = og.push(w);
            assert(og2.drop_last() =~= og);
            assert(og2.last() == w);
            assert(spaced_text(og2) == spaced_text(og) + w.push(' '));
            assert(spaced_bytes(og2) == spaced_bytes(og) + byte_len(w) + 1);
            assert(joined_groups(dg) + og2 =~= (joined_groups(dg) + og).push(w));
            if og.len() >= 1 {
                assert(og2[0] == og[0]);
            }
        }
    }
}

/// Wrapping fits the lines to the box: the lines of the layout are groups of
/// consecutive words, each of two or more words within `width` bytes before
/// its trailing space (the spaces between words counted), each closed only
/// when the next word would not fit.
pub proof fn lemma_wrapped_lines_fit(words: Seq<Seq<char>>, width: int)
    ensures
        exists|groups: Seq<Seq<Seq<char>>>| lines_group_words(wrapped_lines(words, width), groups, words, width),
{
    lemma_wrap_groups(words, width);
    let (done, open, len) = wrap_state(words, width);
    let (dg, og) = wrap_groups(words, width);
    let groups = dg.push(og);
    let lines = wrapped_lines(words, width);
    assert(groups.drop_last() =~= dg);
    assert(joined_groups(groups) == words);
    assert forall|i: int| 0 <= i < lines.len() implies lines[i] == spaced_text(#[trigger] groups[i]) by {
        if i < done.len() {
            assert(groups[i] == dg[i]);
        }
    }
    assert forall|i: int| 0 <= i < groups.len() && #[trigger] groups[i].len() >= 2 implies spaced_bytes(groups[i]) <= width + 1 by {
        if i < dg.len() {
            assert(groups[i] == dg[i]);
        }
    }
    assert forall|i: int| 0 < i < groups.len() implies #[trigger] groups[i].len() >= 1 by {
        if i < dg.len() {
            assert(groups[i] == dg[i]);
        }
    }
    assert forall|i: int| 0 <= i < groups.len() - 1 implies spaced_bytes(#[trigger] groups[i]) + byte_len(
        groups[i + 1][0]) > width by {
        assert(groups[i] == dg[i]);
        if i < dg.len() - 1 {
            assert(groups[i + 1] == dg[i + 1]);
        } else {
            assert(groups[i + 1] == og);
        }
    }
    assert(lines_group_words(lines, groups, words, width));
}

/// The pots sit centred on the bottom of the terminal: the second pot's three
/// rows end on the bottom row, whatever the terminal's height; the first
/// pot's art starts on the row just below the terminal; both are centred on
/// the middle column; other numbers have no pot.
pub proof fn lemma_pot_placement(base: u8, cols: int, rows: int)
    ensures
        base == 2 ==> (spec_base_origin(base, cols, rows) matches Some((x, y)) && y + 3 == rows && x
            + 15int / 2 == cols / 2),
        base == 1 ==> (spec_base_origin(base, cols, rows) matches Some((x, y)) && y == rows && x + 31int
            / 2 == cols / 2),
        base != 1 && base != 2 ==> spec_base_origin(base, cols, rows) is None,
{
}

/// The text area of the message box holds the whole message: its lines, one
/// more than the height, times its width exceed the message's length.
pub proof fn lemma_box_holds_message(len: int, max_x: int)
    requires
        0 <= len,
        0 <= max_x,
        len + 3 <= max_x / 4 || max_x >= 4,
    ensures
        len < (spec_box_size(len, max_x).1 + 1) * spec_box_size(len, max_x).0,
{
    if len + 3 > max_x / 4 {
        let w = max_x / 4;
        assert(w > 0);
        assert(len < (len / w + 1) * w) by (nonlinear_arith)
            requires
                w > 0,
                len >= 0,
        ;
        assert(spec_box_size(len, max_x) == (w, len / w));
    } else {
        assert(spec_box_size(len, max_x) == (len + 1, 0int));
        assert((0int + 1) * (len + 1) == len + 1);
    }
}

// ---------------------------------------------------------------------------
// Pot
// ---------------------------------------------------------------------------

/// Where the art of pot `base` starts on a `cols` by `rows` terminal: the art
/// is centred, and the first pot's art ends at the bottom row while the
/// second's three rows end there. Other numbers have no pot.
pub open spec fn spec_base_origin(base: u8, cols: int, rows: int) -> Option<(int, int)> {
    if base == 1 {
        Some((cols / 2 - 31int / 2, rows))
    } else if base == 2 {
        Some((cols / 2 - 15int / 2, rows - 3))
    } else {
        None
    }
}

/// Column and row where the art of pot `base` starts on a `cols` by `rows`
/// terminal, or `None` for a number without a pot.
pub fn base_origin(base: u8, cols: u16, rows: u16) -> (r: Option<(u16, u16)>)
    requires
        base == 1 ==> cols / 2 >= 31int / 2,
        base == 2 ==> cols / 2 >= 15int / 2 && rows >= 3,
    ensures
        match spec_base_origin(base, cols as int, rows as int) {
            Some((x, y)) => r matches Some(p) && p.0 == x && p.1 == y,
            None => r is None,
        },
{
    if base == 1 {
        let base_width: u16 = 31;
        let lines_len: u16 = 0;
        Some((cols / 2 - base_width / 2, rows - lines_len))
    } else if base == 2 {
        let base_width: u16 = 15;
        Some((cols / 2 - base_width / 2, rows - 3))
    } else {
        None
    }
}

// ---------------------------------------------------------------------------
// Keyboard
// ---------------------------------------------------------------------------

/// What one look at the keyboard found.
pub enum KeyCheck {
    /// Asking whether an event is waiting failed.
    PollFailed,
    /// No event was waiting.
    NoEvent,
    /// An event was waiting but reading it failed.
    ReadFailed,
    /// A key was pressed.
    KeyPressed,
    /// Some other event (a key release, a resize, the mouse).
    OtherEvent,
}

/// Whether the display should end after this look at the keyboard: on a key
/// press, and also when the keyboard cannot be read.
pub fn exit_requested(check: KeyCheck) -> (r: bool)
    ensures
        r == !(check is NoEvent || check is OtherEvent),
{
    match check {
        KeyCheck::PollFailed => true,
        KeyCheck::NoEvent => false,
        KeyCheck::ReadFailed => true,
        KeyCheck::KeyPressed => true,
        KeyCheck::OtherEvent => false,
    }
}

} // verus!
