//! Reading undoes writing: the text of a chunk reads back as the chunk.

use vstd::prelude::*;
use super::codec::{
    count_field, decode, decode_from, encode, fill, find_byte, header_text, id_field, is_token_byte,
    lemma_run_is_maximal, named_id, pad, recover, run, run_length, runs_text, token_count,
    token_text, Outcome, CARET, CARRIAGE_RETURN, CELLS, COMMA, LINE_FEED, STAR,
};
use super::decimal::{decimal_digits, lemma_digits_are_digits, lemma_parse_digits};

verus! {

/// Whether `text` stands in `file` at `pos`.
pub open spec fn stands_at(file: Seq<u8>, pos: int, text: Seq<u8>) -> bool {
    &&& 0 <= pos
    &&& pos + text.len() <= file.len()
    &&& forall|i: int| 0 <= i < text.len() ==> file[pos + i] == #[trigger] text[i]
}

/// Where a byte first stands: before it the byte does not occur.
proof fn lemma_find_byte(s: Seq<u8>, b: u8, from: int, at: int)
    requires
        0 <= from <= at <= s.len(),
        forall|i: int| from <= i < at ==> s[i] != b,
        at == s.len() || s[at] == b,
    ensures
        find_byte(s, b, from) == at,
    decreases at - from,
{
    if from < at {
        lemma_find_byte(s, b, from + 1, at);
    }
}

/// A token reads back as the id and the count it was written from.
pub proof fn lemma_token_reads_back(id: u16, count: nat)
    requires
        1 <= count <= u64::MAX,
    ensures
        named_id(token_text(id, count)) == Some(id),
        token_count(token_text(id, count)) == count,
        forall|i: int|
            0 <= i < token_text(id, count).len() ==> is_token_byte(
                #[trigger] token_text(id, count)[i],
            ),
{
    let token = token_text(id, count);
    let digits = decimal_digits(id as nat);
    lemma_digits_are_digits(id as nat);
    lemma_parse_digits(id as nat, u16::MAX as nat);
    let split = digits.len() as int;
    assert forall|i: int| 0 <= i < split implies token[i] != STAR by {
        assert(token[i] == digits[i]);
    }
    lemma_find_byte(token, STAR, 0, split);
    assert(id_field(token) =~= digits);
    if count > 1 {
        let counted = decimal_digits(count);
        lemma_digits_are_digits(count);
        lemma_parse_digits(count, u64::MAX as nat);
        assert forall|i: int| split + 1 <= i < token.len() implies token[i] != STAR by {
            assert(token[i] == counted[i - split - 1]);
        }
        lemma_find_byte(token, STAR, split + 1, token.len() as int);
        assert(count_field(token) =~= counted);
        assert forall|i: int| 0 <= i < token.len() implies is_token_byte(#[trigger] token[i]) by {
            if i < split {
                assert(token[i] == digits[i]);
            } else if i > split {
                assert(token[i] == counted[i - split - 1]);
            }
        }
    } else {
        assert(token =~= digits);
    }
}

/// The bytes of a token join the open token one after another.
proof fn lemma_decode_token_bytes(
    file: Seq<u8>,
    pos: int,
    text: Seq<u8>,
    token: Seq<u8>,
    cells: Seq<u16>,
    recovered: nat,
)
    requires
        stands_at(file, pos, text),
        forall|i: int| 0 <= i < text.len() ==> is_token_byte(#[trigger] text[i]),
    ensures
        decode_from(file, pos, token, cells, recovered) == decode_from(
            file,
            pos + text.len(),
            token + text,
            cells,
            recovered,
        ),
    decreases text.len(),
{
    if text.len() == 0 {
        assert(token + text =~= token);
    } else {
        let rest = text.drop_first();
        assert(file[pos + 0] == text[0]);
        assert forall|i: int| 0 <= i < rest.len() implies file[pos + 1 + i] == #[trigger] rest[i]
            && is_token_byte(rest[i]) by {
            assert(rest[i] == text[i + 1]);
            assert(file[pos + (i + 1)] == text[i + 1]);
        }
        lemma_decode_token_bytes(file, pos + 1, rest, token.push(text[0]), cells, recovered);
        assert(token.push(text[0]) + rest =~= token + text);
    }
}

/// What a chunk that is written reads back as: its cells, with nothing
/// recovered and nothing left over.
pub open spec fn clean(cells: Seq<u16>) -> Outcome {
    Outcome { cells, recovered: 0, overflow: false }
}

/// Where the tokens of the runs from cell `start` on stand in a text, with a
/// `^` behind them, and the cells before `start` are filled, reading from
/// there fills the others.
proof fn lemma_decode_runs(file: Seq<u8>, pos: int, cells: Seq<u16>, start: int)
    requires
        cells.len() == CELLS,
        0 <= start <= CELLS,
        stands_at(file, pos, runs_text(cells, start) + seq![CARET]),
    ensures
        decode_from(file, pos, Seq::empty(), cells.take(start), 0) == Some(clean(cells)),
    decreases CELLS - start,
{
    let all = runs_text(cells, start) + seq![CARET];
    if start == CELLS {
        assert(file[pos + 0] == all[0]);
        assert(pad(cells.take(start)) =~= cells);
    } else {
        let count = run_length(cells, start);
        let id = cells[start];
        let text = token_text(id, count);
        let next = start + count;
        let rest = runs_text(cells, next) + seq![CARET];
        lemma_run_is_maximal(cells, start);
        lemma_token_reads_back(id, count);
        assert(all =~= text + seq![COMMA] + rest);
        assert forall|i: int| 0 <= i < text.len() implies file[pos + i] == #[trigger] text[i] by {
            assert(all[i] == text[i]);
        }
        lemma_decode_token_bytes(file, pos, text, Seq::empty(), cells.take(start), 0);
        assert(Seq::<u8>::empty() + text =~= text);
        let comma = pos + text.len();
        assert(file[comma] == COMMA) by {
            assert(all[text.len() as int] == COMMA);
        }
        assert(fill(cells.take(start), text) =~= cells.take(next));
        assert forall|i: int| 0 <= i < rest.len() implies file[comma + 1 + i]
            == #[trigger] rest[i] by {
            assert(all[text.len() + 1 + i] == rest[i]);
            assert(file[pos + (text.len() + 1 + i)] == all[text.len() + 1 + i]);
        }
        lemma_decode_runs(file, comma + 1, cells, next);
    }
}

/// Where the text of a chunk stands in a file, reading from the end of its
/// header on gives the cells that were written, and nothing is recovered or
/// left over.
pub proof fn lemma_decode_where_chunk_stands(
    file: Seq<u8>,
    at: int,
    x: int,
    y: int,
    z: int,
    cells: Seq<u16>,
)
    requires
        cells.len() == CELLS,
        stands_at(file, at, encode(x, y, z, cells)),
    ensures
        decode(file, at + header_text(x, y, z).len()) == Some(clean(cells)),
{
    let text = encode(x, y, z, cells);
    let body = runs_text(cells, 0) + seq![CARET];
    let from = at + header_text(x, y, z).len();
    assert(file[from] == CARRIAGE_RETURN) by {
        assert(text[from - at] == CARRIAGE_RETURN);
    }
    assert(file[from + 1] == LINE_FEED) by {
        assert(text[from - at + 1] == LINE_FEED);
        assert(file[at + (from - at + 1)] == text[from - at + 1]);
    }
    assert forall|i: int| 0 <= i < body.len() implies file[from + 2 + i] == #[trigger] body[i] by {
        assert(text[from - at + 2 + i] == body[i]);
        assert(file[at + (from - at + 2 + i)] == text[from - at + 2 + i]);
    }
    let none = Seq::<u16>::empty();
    assert(cells.take(0) =~= none);
    lemma_decode_runs(file, from + 2, cells, 0);
    assert(decode_from(file, from + 1, Seq::empty(), none, 0) == decode_from(
        file,
        from + 2,
        Seq::empty(),
        none,
        0,
    ));
    assert(decode_from(file, from, Seq::empty(), none, 0) == decode_from(
        file,
        from + 1,
        Seq::empty(),
        none,
        0,
    ));
}

/// Reading the text of a chunk, from the end of its header on, gives the
/// cells that were written, whatever they hold and wherever the chunk lies.
pub proof fn lemma_decode_inverts_encode(x: int, y: int, z: int, cells: Seq<u16>)
    requires
        cells.len() == CELLS,
    ensures
        decode(encode(x, y, z, cells), header_text(x, y, z).len() as int) == Some(clean(cells)),
{
    lemma_decode_where_chunk_stands(encode(x, y, z, cells), 0, x, y, z, cells);
}

/// The runs of a chunk that is written and read again are the runs that were
/// written: each starts and ends at the same cell, also where it runs on from
/// one row or layer of the chunk into the next.
pub proof fn lemma_runs_survive(x: int, y: int, z: int, cells: Seq<u16>, start: int)
    requires
        cells.len() == CELLS,
        0 <= start < CELLS,
    ensures
        decode(encode(x, y, z, cells), header_text(x, y, z).len() as int) matches Some(read)
            && run_length(read.cells, start) == run_length(cells, start),
{
    lemma_decode_inverts_encode(x, y, z, cells);
}

/// A token that names no id stands for air, for as many cells of it as the
/// token counts, and each of them counts as recovered.
pub proof fn lemma_unnamed_id_is_air(token: Seq<u8>, cells: Seq<u16>, recovered: nat)
    requires
        named_id(token) is None,
        cells.len() + token_count(token) <= CELLS,
    ensures
        fill(cells, token) == cells + run(0, token_count(token)),
        recover(cells, token, recovered) == recovered + token_count(token),
{
}

} // verus!
