//! The serialized state read back: what the engine writes for a position
//! is read as that position.

use crate::notation::{
    cell_text, decimal, digits_value, is_digit, is_number, lemma_cell_round_trip, lemma_digits_value_push,
    number_digits, on_board, parse_cell, Coord, Orientation, ParseError, MAX_SIZE,
};
use crate::player::Player;
use crate::position::{anchors_of, cells_text, wall_edges, Position};
use crate::text::{is_space, lemma_trim_end, lemma_trim_start, number_or, pairs, split, trimmed, words};
use vstd::prelude::*;
use vstd::string::*;

verus! {

/// A character that is neither blank nor the separator of the fields.
pub open spec fn is_plain(c: char) -> bool {
    c != '/' && !is_space(c)
}

/// Every character of `s` is plain.
pub open spec fn all_plain(s: Seq<char>) -> bool {
    forall|i: int| 0 <= i < s.len() ==> is_plain(#[trigger] s[i])
}

/// Text without a separator is one piece.
pub proof fn lemma_split_one(s: Seq<char>, sep: char)
    requires
        forall|i: int| 0 <= i < s.len() ==> #[trigger] s[i] != sep,
    ensures
        split(s, sep) == seq![s],
    decreases s.len(),
{
    if s.len() > 0 {
        let t = s.drop_last();
        lemma_split_one(t, sep);
        assert(seq![t].update(0, t.push(s.last())) =~= seq![s]) by {
            assert(t.push(s.last()) =~= s);
        }
    } else {
        assert(s =~= Seq::<char>::empty());
    }
}

/// A separator and a piece without one add a piece.
pub proof fn lemma_split_more(a: Seq<char>, b: Seq<char>, sep: char)
    requires
        forall|i: int| 0 <= i < b.len() ==> #[trigger] b[i] != sep,
    ensures
        split(a + seq![sep] + b, sep) == split(a, sep).push(b),
    decreases b.len(),
{
    let s = a + seq![sep] + b;
    if b.len() == 0 {
        assert(s.drop_last() =~= a);
        assert(b =~= Seq::<char>::empty());
    } else {
        let shorter = b.drop_last();
        lemma_split_more(a, shorter, sep);
        assert(s.drop_last() =~= a + seq![sep] + shorter);
        assert(s.last() == b.last());
        let before = split(a, sep).push(shorter);
        assert(shorter.push(b.last()) =~= b);
        assert(before.update(before.len() - 1, before.last().push(b.last())) =~= split(a, sep).push(b));
    }
}

/// A blank after a text adds no word.
pub proof fn lemma_words_blank(s: Seq<char>, c: char)
    requires
        is_space(c),
    ensures
        words(s.push(c)) == words(s),
{
    assert(s.push(c).drop_last() =~= s);
}

/// A run of characters that are not blank, after a blank or at the start,
/// is one more word.
pub proof fn lemma_words_word(s: Seq<char>, w: Seq<char>)
    requires
        s.len() == 0 || is_space(s.last()),
        w.len() > 0,
        forall|i: int| 0 <= i < w.len() ==> !is_space(#[trigger] w[i]),
    ensures
        words(s + w) == words(s).push(w),
    decreases w.len(),
{
    let t = s + w;
    assert(t.last() == w.last());
    if w.len() == 1 {
        assert(t.drop_last() =~= s);
        assert(seq![w.last()] =~= w);
        if t.len() >= 2 {
            assert(t[t.len() - 2] == s.last());
        }
    } else {
        let shorter = w.drop_last();
        lemma_words_word(s, shorter);
        assert(t.drop_last() =~= s + shorter);
        assert(t[t.len() - 2] == w[w.len() - 2]);
        let before = words(s).push(shorter);
        assert(shorter.push(w.last()) =~= w);
        assert(before.update(before.len() - 1, before.last().push(w.last())) =~= words(s).push(w));
    }
}

/// The two words of a field that holds two texts between blanks.
pub proof fn lemma_words_pair(first: Seq<char>, second: Seq<char>)
    requires
        first.len() > 0,
        second.len() > 0,
        all_plain(first),
        all_plain(second),
    ensures
        words(seq![' '] + first + seq![' '] + second + seq![' ']) == seq![first, second],
{
    let blank = Seq::<char>::empty().push(' ');
    assert(blank =~= seq![' ']);
    lemma_words_blank(Seq::empty(), ' ');
    assert(words(Seq::<char>::empty()) =~= Seq::<Seq<char>>::empty());
    lemma_words_word(blank, first);
    let one = blank + first;
    lemma_words_blank(one, ' ');
    let spaced = one.push(' ');
    lemma_words_word(spaced, second);
    let two = spaced + second;
    lemma_words_blank(two, ' ');
    assert(two.push(' ') =~= seq![' '] + first + seq![' '] + second + seq![' ']);
    assert(Seq::<Seq<char>>::empty().push(first).push(second) =~= seq![first, second]);
}

/// A text between single blanks, trimmed, is the text.
pub proof fn lemma_trimmed_core(lead: bool, core: Seq<char>)
    requires
        all_plain(core),
    ensures
        trimmed((if lead {
            seq![' '] + core
        } else {
            core
        }).push(' ')) == core,
{
    let front = if lead {
        seq![' '] + core
    } else {
        core
    };
    let s = front.push(' ');
    let lo: int = if lead { 1 } else { 0 };
    if core.len() > 0 {
        assert(is_plain(core[core.len() - 1]));
        assert(s[s.len() - 2] == core[core.len() - 1]);
        lemma_trim_end(s, s.len() - 1);
        assert(s.subrange(0, s.len() - 1) =~= front);
        assert(is_plain(core[0]));
        assert(front[lo] == core[0]);
        lemma_trim_start(front, lo);
        assert(front.subrange(lo, front.len() as int) =~= core);
    } else {
        lemma_trim_end(s, 0);
        assert(s.subrange(0, 0) =~= core);
        lemma_trim_start(core, 0);
        assert(core.subrange(0, 0) =~= core);
    }
}

/// A written cell has two characters, both plain.
pub proof fn lemma_cell_text_plain(size: nat, cell: Coord)
    requires
        1 <= size <= MAX_SIZE,
        on_board(size, cell),
    ensures
        cell_text(size, cell).len() == 2,
        all_plain(cell_text(size, cell)),
{
    let s = cell_text(size, cell);
    assert(is_plain(s[0]));
    assert(is_plain(s[1]));
}

/// A written number is a run of digits that spells the number.
pub proof fn lemma_decimal_spells(n: nat)
    ensures
        decimal(n).len() > 0,
        forall|i: int| 0 <= i < decimal(n).len() ==> is_digit(#[trigger] decimal(n)[i]),
        digits_value(decimal(n)) == n,
    decreases n,
{
    if n < 10 {
        let s = decimal(n);
        assert(s.drop_last() =~= Seq::<char>::empty());
        assert(digits_value(s) == n) by {
            reveal_with_fuel(digits_value, 2);
        }
    } else {
        lemma_decimal_spells(n / 10);
        lemma_digits_value_push(decimal(n / 10), crate::notation::digit_char(n % 10));
    }
}

/// A written number is read as the number, if the machine's word holds it.
pub proof fn lemma_number_round_trip(n: nat, fallback: usize)
    requires
        n <= usize::MAX,
    ensures
        number_or(decimal(n), fallback) == n,
        all_plain(decimal(n)),
{
    lemma_decimal_spells(n);
    let s = decimal(n);
    assert(is_digit(s[0]));
    assert(number_digits(s) == s);
    assert(is_number(s));
    assert forall|i: int| 0 <= i < s.len() implies is_plain(#[trigger] s[i]) by {
        assert(is_digit(s[i]));
    }
}

/// A written number is plain text.
pub proof fn lemma_decimal_plain(n: nat)
    ensures
        decimal(n).len() > 0,
        all_plain(decimal(n)),
{
    lemma_decimal_spells(n);
    let s = decimal(n);
    assert forall|i: int| 0 <= i < s.len() implies is_plain(#[trigger] s[i]) by {
        assert(is_digit(s[i]));
    }
}

/// How each cell of `cells` is written.
pub open spec fn written(size: nat, cells: Seq<Coord>) -> Seq<Seq<char>> {
    Seq::new(cells.len(), |i: int| cell_text(size, cells[i]))
}

/// Cells written one after the other are plain text, and cut into chunks
/// of two characters they are the written cells.
pub proof fn lemma_cells_text_pairs(size: nat, cells: Seq<Coord>)
    requires
        1 <= size <= MAX_SIZE,
        forall|i: int| 0 <= i < cells.len() ==> on_board(size, #[trigger] cells[i]),
    ensures
        cells_text(size, cells).len() == 2 * cells.len(),
        all_plain(cells_text(size, cells)),
        pairs(cells_text(size, cells)) == written(size, cells),
    decreases cells.len(),
{
    let text = cells_text(size, cells);
    if cells.len() > 0 {
        let front = cells.drop_last();
        let last = cell_text(size, cells.last());
        lemma_cells_text_pairs(size, front);
        lemma_cell_text_plain(size, cells.last());
        let before = cells_text(size, front);
        assert(text == before + last);
        assert forall|i: int| 0 <= i < text.len() implies is_plain(#[trigger] text[i]) by {
            if i < before.len() {
                assert(text[i] == before[i]);
            } else {
                assert(text[i] == last[i - before.len()]);
            }
        }
        assert forall|i: int| 0 <= i < cells.len() implies pairs(text)[i] == written(size, cells)[i] by {
            if i < front.len() {
                assert(pairs(before)[i] == written(size, front)[i]);
                assert(text.subrange(2 * i, 2 * i + 2) =~= before.subrange(2 * i, 2 * i + 2));
                assert(front[i] == cells[i]);
            } else {
                assert(text.subrange(2 * i, 2 * i + 2) =~= last);
            }
        }
        assert(pairs(text) =~= written(size, cells));
    } else {
        assert(pairs(text) =~= written(size, cells));
    }
}

/// Written anchors of walls that sever a passage are read as those anchors.
pub proof fn lemma_anchors_round_trip(size: nat, anchors: Seq<Coord>, orientation: Orientation)
    requires
        1 <= size <= MAX_SIZE,
        forall|i: int| 0 <= i < anchors.len() ==> on_board(size, #[trigger] anchors[i]),
        forall|i: int| 0 <= i < anchors.len() ==> wall_edges(size, #[trigger] anchors[i], orientation).len() > 0,
    ensures
        anchors_of(size, written(size, anchors), orientation) == Ok::<Seq<Coord>, ParseError>(anchors),
    decreases anchors.len(),
{
    let chunks = written(size, anchors);
    if anchors.len() > 0 {
        let front = anchors.drop_last();
        lemma_anchors_round_trip(size, front, orientation);
        assert(chunks.drop_last() =~= written(size, front));
        assert(chunks.last() == cell_text(size, anchors.last()));
        lemma_cell_round_trip(size, anchors.last());
        assert(front.push(anchors.last()) =~= anchors);
    } else {
        assert(anchors =~= Seq::<Coord>::empty());
    }
}

/// The position `pos` as a reader of its serialized state gets it: the
/// board, the pawns, the stocks and the player to move are those of `pos`,
/// and no move is on record.
pub open spec fn as_read(pos: Position) -> Position {
    Position { previous: Seq::empty(), last_move: "Blank"@, ..pos }
}

/// No character of `s` is the separator of the fields.
pub open spec fn no_bar(s: Seq<char>) -> bool {
    forall|i: int| 0 <= i < s.len() ==> #[trigger] s[i] != '/'
}

/// Five pieces without a separator, joined by separators, are cut into
/// those five pieces.
proof fn lemma_split_five(f0: Seq<char>, f1: Seq<char>, f2: Seq<char>, f3: Seq<char>, f4: Seq<char>)
    requires
        no_bar(f0),
        no_bar(f1),
        no_bar(f2),
        no_bar(f3),
        no_bar(f4),
    ensures
        split(f0 + seq!['/'] + f1 + seq!['/'] + f2 + seq!['/'] + f3 + seq!['/'] + f4, '/') == seq![f0, f1, f2, f3, f4],
{
    let bar = seq!['/'];
    lemma_split_one(f0, '/');
    lemma_split_more(f0, f1, '/');
    let two = f0 + bar + f1;
    lemma_split_more(two, f2, '/');
    let three = two + bar + f2;
    lemma_split_more(three, f3, '/');
    let four = three + bar + f3;
    lemma_split_more(four, f4, '/');
    assert(seq![f0].push(f1).push(f2).push(f3).push(f4) =~= seq![f0, f1, f2, f3, f4]);
}

/// Plain text between blanks holds no separator.
proof fn lemma_no_bar_one(lead: bool, core: Seq<char>)
    requires
        all_plain(core),
    ensures
        no_bar((if lead {
            seq![' '] + core
        } else {
            core
        }).push(' ')),
{
    let front = if lead {
        seq![' '] + core
    } else {
        core
    };
    let s = front.push(' ');
    let lo: int = if lead { 1 } else { 0 };
    assert forall|i: int| 0 <= i < s.len() implies #[trigger] s[i] != '/' by {
        if lo <= i < lo + core.len() {
            assert(s[i] == core[i - lo]);
            assert(is_plain(core[i - lo]));
        }
    }
}

/// Two plain texts between blanks hold no separator.
proof fn lemma_no_bar_two(first: Seq<char>, second: Seq<char>)
    requires
        all_plain(first),
        all_plain(second),
    ensures
        no_bar(seq![' '] + first + seq![' '] + second + seq![' ']),
{
    let s = seq![' '] + first + seq![' '] + second + seq![' '];
    assert forall|i: int| 0 <= i < s.len() implies #[trigger] s[i] != '/' by {
        if 1 <= i < 1 + first.len() {
            assert(s[i] == first[i - 1]);
            assert(is_plain(first[i - 1]));
        } else if 2 + first.len() <= i < 2 + first.len() + second.len() {
            assert(s[i] == second[i - 2 - first.len()]);
            assert(is_plain(second[i - 2 - first.len()]));
        }
    }
}

/// The serialized state is its five fields joined by the separator.
proof fn lemma_state_text_joined(pos: Position)
    ensures
        pos.state_text() == cells_text(pos.size, pos.hwalls).push(' ') + seq!['/'] + (seq![' '] + cells_text(
            pos.size,
            pos.vwalls,
        )).push(' ') + seq!['/'] + (seq![' '] + cell_text(pos.size, pos.pawn1) + seq![' '] + cell_text(
            pos.size,
            pos.pawn2,
        ) + seq![' ']) + seq!['/'] + (seq![' '] + decimal(pos.stock1) + seq![' '] + decimal(pos.stock2) + seq![' '])
            + seq!['/'] + seq![' ', pos.active.digit()],
{
    reveal_strlit(" / ");
    reveal_strlit(" ");
    let gap = " / "@;
    let blank = " "@;
    assert(gap =~= seq![' ', '/', ' ']);
    assert(blank =~= seq![' ']);
    let h = cells_text(pos.size, pos.hwalls);
    let v = cells_text(pos.size, pos.vwalls);
    let first = cell_text(pos.size, pos.pawn1);
    let second = cell_text(pos.size, pos.pawn2);
    let d1 = decimal(pos.stock1);
    let d2 = decimal(pos.stock2);
    let bar = seq!['/'];
    let space = seq![' '];
    let walls_along = h.push(' ');
    let walls_across = (space + v).push(' ');
    let pawns = space + first + space + second + space;
    let stocks = space + d1 + space + d2 + space;
    let a = h + gap;
    assert(a =~= walls_along + bar + space);
    let b = a + v + gap;
    assert(b =~= walls_along + bar + walls_across + bar + space);
    let c = b + first + blank + second + gap;
    assert(c =~= walls_along + bar + walls_across + bar + pawns + bar + space);
    let d = c + d1 + blank + d2 + gap;
    assert(d =~= walls_along + bar + walls_across + bar + pawns + bar + stocks + bar + space);
    assert(pos.state_text() == d + seq![pos.active.digit()]);
    assert(d + seq![pos.active.digit()] =~= walls_along + bar + walls_across + bar + pawns + bar + stocks + bar
        + seq![' ', pos.active.digit()]);
}

/// The five fields of a serialized state.
proof fn lemma_state_fields(pos: Position)
    requires
        pos.valid(),
    ensures
        split(pos.state_text(), '/') == seq![
            cells_text(pos.size, pos.hwalls).push(' '),
            (seq![' '] + cells_text(pos.size, pos.vwalls)).push(' '),
            seq![' '] + cell_text(pos.size, pos.pawn1) + seq![' '] + cell_text(pos.size, pos.pawn2) + seq![' '],
            seq![' '] + decimal(pos.stock1) + seq![' '] + decimal(pos.stock2) + seq![' '],
            seq![' ', pos.active.digit()],
        ],
{
    let size = pos.size;
    let h = cells_text(size, pos.hwalls);
    let v = cells_text(size, pos.vwalls);
    let first = cell_text(size, pos.pawn1);
    let second = cell_text(size, pos.pawn2);
    let d1 = decimal(pos.stock1);
    let d2 = decimal(pos.stock2);
    lemma_cells_text_pairs(size, pos.hwalls);
    lemma_cells_text_pairs(size, pos.vwalls);
    lemma_cell_text_plain(size, pos.pawn1);
    lemma_cell_text_plain(size, pos.pawn2);
    lemma_decimal_plain(pos.stock1);
    lemma_decimal_plain(pos.stock2);
    lemma_no_bar_one(false, h);
    lemma_no_bar_one(true, v);
    lemma_no_bar_two(first, second);
    lemma_no_bar_two(d1, d2);
    let f4 = seq![' ', pos.active.digit()];
    assert(no_bar(f4));
    lemma_state_text_joined(pos);
    lemma_split_five(
        h.push(' '),
        (seq![' '] + v).push(' '),
        seq![' '] + first + seq![' '] + second + seq![' '],
        seq![' '] + d1 + seq![' '] + d2 + seq![' '],
        f4,
    );
}

/// What the reader finds in the five fields of a serialized state.
proof fn lemma_fields_read(pos: Position)
    requires
        pos.valid(),
        forall|i: int|
            0 <= i < pos.hwalls.len() ==> wall_edges(pos.size, #[trigger] pos.hwalls[i], Orientation::Horizontal).len()
                > 0,
        forall|i: int|
            0 <= i < pos.vwalls.len() ==> wall_edges(pos.size, #[trigger] pos.vwalls[i], Orientation::Vertical).len()
                > 0,
        pos.stock1 <= usize::MAX,
        pos.stock2 <= usize::MAX,
    ensures
        anchors_of(
            pos.size,
            pairs(trimmed(cells_text(pos.size, pos.hwalls).push(' '))),
            Orientation::Horizontal,
        ) == Ok::<Seq<Coord>, ParseError>(pos.hwalls),
        anchors_of(
            pos.size,
            pairs(trimmed((seq![' '] + cells_text(pos.size, pos.vwalls)).push(' '))),
            Orientation::Vertical,
        ) == Ok::<Seq<Coord>, ParseError>(pos.vwalls),
        words(seq![' '] + cell_text(pos.size, pos.pawn1) + seq![' '] + cell_text(pos.size, pos.pawn2) + seq![' '])
            == seq![cell_text(pos.size, pos.pawn1), cell_text(pos.size, pos.pawn2)],
        parse_cell(pos.size, cell_text(pos.size, pos.pawn1)) == Ok::<Coord, ParseError>(pos.pawn1),
        parse_cell(pos.size, cell_text(pos.size, pos.pawn2)) == Ok::<Coord, ParseError>(pos.pawn2),
        words(seq![' '] + decimal(pos.stock1) + seq![' '] + decimal(pos.stock2) + seq![' ']) == seq![
            decimal(pos.stock1),
            decimal(pos.stock2),
        ],
        number_or(decimal(pos.stock1), pos.allotment as usize) == pos.stock1,
        number_or(decimal(pos.stock2), pos.allotment as usize) == pos.stock2,
        trimmed(seq![' ', pos.active.digit()]) == seq!['1'] <==> pos.active == Player::Player1,
{
    let size = pos.size;
    let fallback = pos.allotment as usize;
    lemma_cells_text_pairs(size, pos.hwalls);
    lemma_cells_text_pairs(size, pos.vwalls);
    lemma_trimmed_core(false, cells_text(size, pos.hwalls));
    lemma_trimmed_core(true, cells_text(size, pos.vwalls));
    lemma_anchors_round_trip(size, pos.hwalls, Orientation::Horizontal);
    lemma_anchors_round_trip(size, pos.vwalls, Orientation::Vertical);
    lemma_cell_text_plain(size, pos.pawn1);
    lemma_cell_text_plain(size, pos.pawn2);
    lemma_cell_round_trip(size, pos.pawn1);
    lemma_cell_round_trip(size, pos.pawn2);
    lemma_words_pair(cell_text(size, pos.pawn1), cell_text(size, pos.pawn2));
    lemma_number_round_trip(pos.stock1, fallback);
    lemma_number_round_trip(pos.stock2, fallback);
    lemma_decimal_spells(pos.stock1);
    lemma_decimal_spells(pos.stock2);
    lemma_words_pair(decimal(pos.stock1), decimal(pos.stock2));
    let mark = seq![' ', pos.active.digit()];
    lemma_trim_end(mark, 2);
    assert(mark.subrange(0, 2) =~= mark);
    lemma_trim_start(mark, 1);
    assert(mark.subrange(1, 2) =~= seq![pos.active.digit()]);
    if trimmed(mark) == seq!['1'] {
        assert(trimmed(mark)[0] == '1');
    }
}

/// Reading a written state gives the board back: a game that is started
/// from the serialized state of a position is in that position, with no
/// move on record. This holds of every position whose walls each sever a
/// passage, as all walls do that the engine has placed, and whose stocks
/// fit the machine's word.
pub proof fn law_state_round_trip(pos: Position)
    requires
        pos.valid(),
        forall|i: int|
            0 <= i < pos.hwalls.len() ==> wall_edges(pos.size, #[trigger] pos.hwalls[i], Orientation::Horizontal).len()
                > 0,
        forall|i: int|
            0 <= i < pos.vwalls.len() ==> wall_edges(pos.size, #[trigger] pos.vwalls[i], Orientation::Vertical).len()
                > 0,
        pos.stock1 <= usize::MAX,
        pos.stock2 <= usize::MAX,
    ensures
        Position::opening(pos.size, pos.allotment, Some(pos.state_text())) == Ok::<Position, ParseError>(as_read(pos)),
{
    lemma_state_fields(pos);
    lemma_fields_read(pos);
    let start = Position::fresh(pos.size, pos.allotment);
    assert(start.hwalls + pos.hwalls =~= pos.hwalls);
    assert(start.vwalls + pos.vwalls =~= pos.vwalls);
    let read = start.loaded(pos.state_text());
    assert(read is Ok);
    assert(read->Ok_0 == as_read(pos));
}

} // verus!
