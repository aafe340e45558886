//! The text of a chunk in a world file.
//!
//! A chunk is stored as a header, `^(X,Y,Z):`, and a body. The body is a list
//! of tokens, each closed by a comma, and ends with `^`. A token is `ID`, one
//! voxel, or `ID*COUNT`, a run of `COUNT` voxels with the same id. Line
//! breaks and tabs may stand anywhere and mean nothing.

use vstd::prelude::*;
use super::decimal::{
    all_ascii, decimal_digits, is_digit, lemma_digits_are_digits, lemma_signed_bytes, parse_bounded,
    parse_decimal, signed_decimal,
};

verus! {

/// How many voxels a chunk holds: 16 x 16 x 16.
pub const CELLS: usize = 4096;

pub const TAB: u8 = 9;

pub const LINE_FEED: u8 = 10;

pub const CARRIAGE_RETURN: u8 = 13;

pub const OPEN: u8 = 40;

pub const CLOSE: u8 = 41;

pub const STAR: u8 = 42;

pub const COMMA: u8 = 44;

pub const COLON: u8 = 58;

pub const CARET: u8 = 94;

/// The bytes that the grammar passes over.
pub open spec fn is_blank(b: u8) -> bool {
    b == LINE_FEED || b == CARRIAGE_RETURN || b == TAB
}

/// The bytes that a token is made of.
pub open spec fn is_token_byte(b: u8) -> bool {
    is_digit(b) || b == STAR
}

/// Where `b` first stands in `s` at or after `from`; the length of `s` if it
/// stands nowhere there.
pub open spec fn find_byte(s: Seq<u8>, b: u8, from: int) -> int
    decreases s.len() - from,
{
    if from >= s.len() {
        s.len() as int
    } else if s[from] == b {
        from
    } else {
        find_byte(s, b, from + 1)
    }
}

/// The part of a token that names the voxel: what stands before the first
/// `*`, or the whole token if it has none.
pub open spec fn id_field(token: Seq<u8>) -> Seq<u8> {
    token.subrange(0, find_byte(token, STAR, 0))
}

/// Whether a token has a `*`, and so a count.
pub open spec fn has_count(token: Seq<u8>) -> bool {
    find_byte(token, STAR, 0) < token.len()
}

/// The part of a token that counts the run: what stands between the first
/// `*` and the next, or the end.
pub open spec fn count_field(token: Seq<u8>) -> Seq<u8> {
    let after = find_byte(token, STAR, 0) + 1;
    token.subrange(after, find_byte(token, STAR, after))
}

/// The id that a token names, if its id field is a number of 16 bits.
pub open spec fn named_id(token: Seq<u8>) -> Option<u16> {
    match parse_bounded(id_field(token), u16::MAX as nat) {
        Some(id) => Some(id as u16),
        None => None,
    }
}

/// The voxel that a token stands for: the id it names, and air, id 0, where
/// it names none.
pub open spec fn token_id(token: Seq<u8>) -> u16 {
    match named_id(token) {
        Some(id) => id,
        None => 0,
    }
}

/// The length of the run that a token stands for. Without a count it is 1,
/// and so it is where the count is no number of 64 bits.
pub open spec fn token_count(token: Seq<u8>) -> nat {
    if has_count(token) {
        match parse_bounded(count_field(token), u64::MAX as nat) {
            Some(n) => n,
            None => 1,
        }
    } else {
        1
    }
}

/// `n` voxels with the same id.
pub open spec fn run(id: u16, n: nat) -> Seq<u16> {
    Seq::new(n, |i: int| id)
}

/// The cells of a chunk of which only the first `cells.len()` were filled:
/// the others are air.
pub open spec fn pad(cells: Seq<u16>) -> Seq<u16> {
    cells + run(0, (CELLS - cells.len()) as nat)
}

/// How many cells of a chunk are free when `cells` are filled.
pub open spec fn room(cells: Seq<u16>) -> nat {
    (CELLS - cells.len()) as nat
}

/// How many cells the run of `token` fills: all of the run, or as much of it
/// as there is room for.
pub open spec fn filled_count(cells: Seq<u16>, token: Seq<u8>) -> nat {
    if token_count(token) < room(cells) {
        token_count(token)
    } else {
        room(cells)
    }
}

/// The cells that are filled once `token` is closed: its run follows what was
/// filled before, cut off where the chunk is full.
pub open spec fn fill(cells: Seq<u16>, token: Seq<u8>) -> Seq<u16> {
    cells + run(token_id(token), filled_count(cells, token))
}

/// The count of recovered cells once `token` is closed: the cells that the
/// token fills count where it names no id.
pub open spec fn recover(cells: Seq<u16>, token: Seq<u8>, recovered: nat) -> nat {
    if named_id(token) is None {
        recovered + filled_count(cells, token)
    } else {
        recovered
    }
}

/// What reading a body gave.
pub struct Outcome {
    /// The ids of the 4096 voxels.
    pub cells: Seq<u16>,
    /// How many cells were filled with air because their token named no id.
    pub recovered: nat,
    /// Whether the body held more voxels than a chunk has cells.
    pub overflow: bool,
}

/// What reading a body gives from position `pos` on, when `token` holds the
/// bytes of the token that is open, `cells` the voxels filled so far, and
/// `recovered` counts the cells among them that were recovered.
///
/// A blank is passed over, a digit or `*` joins the open token, and a comma
/// closes it and fills its run. Reading ends at `^` with the cells filled so
/// far, the others being air. It ends early at a run for which the chunk has
/// no room: what fits of the run is filled, and the rest of the body is not
/// read. Any other byte, and the end of the text, leave no chunk.
pub open spec fn decode_from(
    input: Seq<u8>,
    pos: int,
    token: Seq<u8>,
    cells: Seq<u16>,
    recovered: nat,
) -> Option<Outcome>
    decreases input.len() - pos,
{
    if pos < 0 || pos >= input.len() {
        None
    } else if is_blank(input[pos]) {
        decode_from(input, pos + 1, token, cells, recovered)
    } else if input[pos] == CARET {
        Some(Outcome { cells: pad(cells), recovered, overflow: false })
    } else if is_token_byte(input[pos]) {
        decode_from(input, pos + 1, token.push(input[pos]), cells, recovered)
    } else if input[pos] == COMMA {
        if token_count(token) > room(cells) {
            Some(
                Outcome {
                    cells: fill(cells, token),
                    recovered: recover(cells, token, recovered),
                    overflow: true,
                },
            )
        } else {
            decode_from(
                input,
                pos + 1,
                Seq::empty(),
                fill(cells, token),
                recover(cells, token, recovered),
            )
        }
    } else {
        None
    }
}

/// What reading the body that starts at `location` in `file` gives, if the
/// text there is a body.
pub open spec fn decode(file: Seq<u8>, location: int) -> Option<Outcome> {
    decode_from(file, location, Seq::empty(), Seq::empty(), 0)
}

/// How many cells from `start` on hold the same id as the cell at `start`:
/// the length of the run that starts there.
pub open spec fn run_length(cells: Seq<u16>, start: int) -> nat
    decreases cells.len() - start,
{
    if start + 1 < cells.len() && cells[start + 1] == cells[start] {
        1 + run_length(cells, start + 1)
    } else {
        1
    }
}

/// The token for a run of `count` voxels: the id alone for one voxel, the id,
/// `*` and the count for more.
pub open spec fn token_text(id: u16, count: nat) -> Seq<u8> {
    if count > 1 {
        decimal_digits(id as nat) + seq![STAR] + decimal_digits(count)
    } else {
        decimal_digits(id as nat)
    }
}

/// The tokens for the cells from `start` on, one for each run, each followed
/// by a comma.
pub open spec fn runs_text(cells: Seq<u16>, start: int) -> Seq<u8>
    decreases cells.len() - start,
    via runs_text_decreases
{
    if start < 0 || start >= cells.len() {
        Seq::empty()
    } else {
        let count = run_length(cells, start);
        token_text(cells[start], count) + seq![COMMA] + runs_text(cells, start + count)
    }
}

#[via_fn]
proof fn runs_text_decreases(cells: Seq<u16>, start: int) {
    if 0 <= start < cells.len() {
        lemma_run_is_maximal(cells, start);
    }
}

/// The header of the chunk at `(x, y, z)`: `^(x,y,z):`.
pub open spec fn header_text(x: int, y: int, z: int) -> Seq<u8> {
    seq![CARET, OPEN] + signed_decimal(x) + seq![COMMA] + signed_decimal(y) + seq![COMMA]
        + signed_decimal(z) + seq![CLOSE, COLON]
}

/// The text of the chunk at `(x, y, z)` with these cells: the header, a line
/// break, the tokens of its runs, `^` and a line break.
pub open spec fn encode(x: int, y: int, z: int, cells: Seq<u16>) -> Seq<u8> {
    header_text(x, y, z) + seq![CARRIAGE_RETURN, LINE_FEED] + runs_text(cells, 0) + seq![
        CARET,
        CARRIAGE_RETURN,
        LINE_FEED,
    ]
}

/// A run is as long as it can be: its cells hold one id, and it ends at the
/// last cell or before a cell with another id.
pub proof fn lemma_run_is_maximal(cells: Seq<u16>, start: int)
    requires
        0 <= start < cells.len(),
    ensures
        run_length(cells, start) >= 1,
        start + run_length(cells, start) <= cells.len(),
        forall|k: int|
            start <= k < start + run_length(cells, start) ==> cells[k] == cells[start],
        start + run_length(cells, start) == cells.len() || cells[start + run_length(
            cells,
            start,
        )] != cells[start],
    decreases cells.len() - start,
{
    if start + 1 < cells.len() && cells[start + 1] == cells[start] {
        lemma_run_is_maximal(cells, start + 1);
    }
}

/// A body that is read fills a chunk: all 4096 cells have an id, and no more
/// cells are recovered than were filled.
pub proof fn lemma_decode_fills_a_chunk(
    input: Seq<u8>,
    pos: int,
    token: Seq<u8>,
    cells: Seq<u16>,
    recovered: nat,
)
    requires
        recovered <= cells.len() <= CELLS,
    ensures
        decode_from(input, pos, token, cells, recovered) matches Some(outcome) ==> (
        outcome.cells.len() == CELLS && outcome.recovered <= CELLS),
    decreases input.len() - pos,
{
    if 0 <= pos < input.len() {
        if is_blank(input[pos]) {
            lemma_decode_fills_a_chunk(input, pos + 1, token, cells, recovered);
        } else if input[pos] == CARET {
        } else if is_token_byte(input[pos]) {
            lemma_decode_fills_a_chunk(input, pos + 1, token.push(input[pos]), cells, recovered);
        } else if input[pos] == COMMA {
            if token_count(token) <= room(cells) {
                lemma_decode_fills_a_chunk(
                    input,
                    pos + 1,
                    Seq::empty(),
                    fill(cells, token),
                    recover(cells, token, recovered),
                );
            }
        }
    }
}

/// Reading does not go on behind the end of a body: what follows a text
/// that reads as a chunk changes nothing of what is read.
pub proof fn lemma_decode_ignores_what_follows(
    input: Seq<u8>,
    more: Seq<u8>,
    pos: int,
    token: Seq<u8>,
    cells: Seq<u16>,
    recovered: nat,
)
    requires
        decode_from(input, pos, token, cells, recovered) is Some,
    ensures
        decode_from(input + more, pos, token, cells, recovered) == decode_from(
            input,
            pos,
            token,
            cells,
            recovered,
        ),
    decreases input.len() - pos,
{
    let longer = input + more;
    assert(longer[pos] == input[pos]);
    if is_blank(input[pos]) {
        lemma_decode_ignores_what_follows(input, more, pos + 1, token, cells, recovered);
    } else if input[pos] == CARET {
    } else if is_token_byte(input[pos]) {
        lemma_decode_ignores_what_follows(
            input,
            more,
            pos + 1,
            token.push(input[pos]),
            cells,
            recovered,
        );
    } else if input[pos] == COMMA {
        if token_count(token) <= room(cells) {
            lemma_decode_ignores_what_follows(
                input,
                more,
                pos + 1,
                Seq::empty(),
                fill(cells, token),
                recover(cells, token, recovered),
            );
        }
    }
}

/// The tokens of a chunk hold digits, `*` and commas only.
pub proof fn lemma_runs_text_bytes(cells: Seq<u16>, start: int)
    requires
        0 <= start <= cells.len(),
    ensures
        forall|i: int|
            0 <= i < runs_text(cells, start).len() ==> {
                let b = #[trigger] runs_text(cells, start)[i];
                is_digit(b) || b == STAR || b == COMMA
            },
    decreases cells.len() - start,
{
    if start < cells.len() {
        let count = run_length(cells, start);
        lemma_run_is_maximal(cells, start);
        lemma_runs_text_bytes(cells, start + count);
        lemma_digits_are_digits(cells[start] as nat);
        lemma_digits_are_digits(count);
        let token = token_text(cells[start], count);
        let rest = runs_text(cells, start + count);
        let all = runs_text(cells, start);
        assert(all == token + seq![COMMA] + rest);
        assert forall|i: int| 0 <= i < token.len() implies is_digit(#[trigger] token[i])
            || token[i] == STAR by {
            let digits = decimal_digits(cells[start] as nat);
            if i < digits.len() {
                assert(token[i] == digits[i]);
            } else if i > digits.len() {
                assert(token[i] == decimal_digits(count)[i - digits.len() - 1]);
            }
        }
        assert forall|i: int| 0 <= i < all.len() implies {
            let b = #[trigger] all[i];
            is_digit(b) || b == STAR || b == COMMA
        } by {
            if i < token.len() {
                assert(all[i] == token[i]);
            } else if i > token.len() {
                assert(all[i] == rest[i - token.len() - 1]);
            }
        }
    }
}

/// The text of a chunk is ASCII.
pub proof fn lemma_encode_is_ascii(x: int, y: int, z: int, cells: Seq<u16>)
    ensures
        all_ascii(encode(x, y, z, cells)),
{
    let text = encode(x, y, z, cells);
    let sx = signed_decimal(x);
    let sy = signed_decimal(y);
    let sz = signed_decimal(z);
    let body = runs_text(cells, 0);
    lemma_signed_bytes(x);
    lemma_signed_bytes(y);
    lemma_signed_bytes(z);
    lemma_runs_text_bytes(cells, 0);
    let a = 2 + sx.len();
    let b = a + 1 + sy.len();
    let c = b + 1 + sz.len();
    let h = c + 2;
    assert forall|i: int| 0 <= i < text.len() implies #[trigger] text[i] < 128 by {
        if i < 2 {
        } else if i < a {
            assert(text[i] == sx[i - 2]);
        } else if i == a {
        } else if i < b {
            assert(text[i] == sy[i - a - 1]);
        } else if i == b {
        } else if i < c {
            assert(text[i] == sz[i - b - 1]);
        } else if i < h + 2 {
        } else if i < h + 2 + body.len() {
            assert(text[i] == body[i - h - 2]);
        } else {
        }
    }
}

/// Finds `b` in `s` at or after `from`.
pub fn find(s: &[u8], b: u8, from: usize) -> (at: usize)
    requires
        from <= s@.len(),
    ensures
        at == find_byte(s@, b, from as int),
        from <= at <= s@.len(),
{
    let mut i: usize = from;
    while i < s.len() && s[i] != b
        invariant
            from <= i <= s@.len(),
            find_byte(s@, b, from as int) == find_byte(s@, b, i as int),
        decreases s@.len() - i,
    {
        i = i + 1;
    }
    i
}

/// Reads a token: the id it names, if it names one, and the length of its
/// run.
pub fn read_token(token: &[u8]) -> (r: (Option<u16>, u64))
    ensures
        r.0 == named_id(token@),
        r.1 == token_count(token@),
{
    let star: usize = find(token, STAR, 0);
    let id: Option<u16> = match parse_decimal(token, 0, star, 65535) {
        Some(v) => Some(v as u16),
        None => None,
    };
    if star < token.len() {
        let after: usize = star + 1;
        let end: usize = find(token, STAR, after);
        let count: u64 = match parse_decimal(token, after, end, u64::MAX) {
            Some(n) => n,
            None => 1,
        };
        (id, count)
    } else {
        (id, 1)
    }
}

} // verus!
