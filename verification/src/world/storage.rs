//! A world file that is written chunk by chunk loads back: the index finds
//! each chunk, and the text at its offset reads as the chunk.

use vstd::prelude::*;
use super::chunk::ChunkView;
use super::codec::{
    decode, encode, header_text, lemma_runs_text_bytes, runs_text, CARET, CARRIAGE_RETURN, CELLS,
    CLOSE, COLON, COMMA, LINE_FEED, OPEN,
};
use super::decimal::{
    all_digits, decimal_digits, is_digit, lemma_digits_are_digits, lemma_digits_value,
    lemma_signed_bytes, signed_decimal,
};
use super::index::{
    addressable, digits_end, header_at, index_of, lemma_index_holds_the_last_header, names, Header,
};
use super::roundtrip::{clean, lemma_decode_where_chunk_stands, stands_at};

verus! {

/// The text of one chunk in a world file.
pub open spec fn chunk_text(chunk: ChunkView) -> Seq<u8> {
    encode(chunk.position.0, chunk.position.1, chunk.position.2, chunk.cells)
}

/// The world file that holds these chunks: the text of each, one after
/// another.
pub open spec fn world_text(chunks: Seq<ChunkView>) -> Seq<u8>
    decreases chunks.len(),
{
    if chunks.len() == 0 {
        Seq::empty()
    } else {
        world_text(chunks.drop_last()) + chunk_text(chunks.last())
    }
}

/// Where the text of chunk `j` starts in the world file.
pub open spec fn chunk_start(chunks: Seq<ChunkView>, j: int) -> int {
    world_text(chunks.take(j)).len() as int
}

/// Where digits stand and no digit follows them, they end there.
proof fn lemma_digits_run(s: Seq<u8>, from: int, digits: Seq<u8>)
    requires
        stands_at(s, from, digits),
        all_digits(digits),
        from + digits.len() == s.len() || !is_digit(s[from + digits.len()]),
    ensures
        digits_end(s, from) == from + digits.len(),
        s.subrange(from, from + digits.len()) == digits,
    decreases digits.len(),
{
    assert(s.subrange(from, from + digits.len()) =~= digits);
    if digits.len() > 0 {
        let rest = digits.drop_first();
        assert(s[from + 0] == digits[0]);
        assert forall|i: int| 0 <= i < rest.len() implies s[from + 1 + i] == #[trigger] rest[i]
            && is_digit(rest[i]) by {
            assert(rest[i] == digits[i + 1]);
            assert(s[from + (i + 1)] == digits[i + 1]);
        }
        lemma_digits_run(s, from + 1, rest);
    }
}

/// Where the header of a chunk stands whose position has no negative part,
/// the index reads a header that names the position.
pub proof fn lemma_header_stands(s: Seq<u8>, at: int, x: int, y: int, z: int)
    requires
        0 <= x,
        0 <= y,
        0 <= z,
        stands_at(s, at, header_text(x, y, z)),
    ensures
        header_at(s, at) == Some(
            Header { x: x as nat, y: y as nat, z: z as nat, end: at + header_text(x, y, z).len() },
        ),
{
    let text = header_text(x, y, z);
    let dx = decimal_digits(x as nat);
    let dy = decimal_digits(y as nat);
    let dz = decimal_digits(z as nat);
    lemma_digits_are_digits(x as nat);
    lemma_digits_are_digits(y as nat);
    lemma_digits_are_digits(z as nat);
    lemma_digits_value(x as nat);
    lemma_digits_value(y as nat);
    lemma_digits_value(z as nat);
    assert(text =~= seq![CARET, OPEN] + dx + seq![COMMA] + dy + seq![COMMA] + dz + seq![
        CLOSE,
        COLON,
    ]);
    let x_from = at + 2;
    let x_end = x_from + dx.len();
    let y_end = x_end + 1 + dy.len();
    let z_end = y_end + 1 + dz.len();
    assert forall|i: int| 0 <= i < text.len() implies s[at + i] == text[i] by {
        assert(s[at + i] == #[trigger] text[i]);
    }
    assert(s[at] == CARET) by {
        assert(s[at + 0] == text[0]);
    }
    assert(s[at + 1] == OPEN) by {
        assert(text[1] == OPEN);
    }
    assert(s[x_end] == COMMA) by {
        assert(text[x_end - at] == COMMA);
        assert(s[at + (x_end - at)] == text[x_end - at]);
    }
    assert(s[y_end] == COMMA) by {
        assert(text[y_end - at] == COMMA);
        assert(s[at + (y_end - at)] == text[y_end - at]);
    }
    assert(s[z_end] == CLOSE) by {
        assert(text[z_end - at] == CLOSE);
        assert(s[at + (z_end - at)] == text[z_end - at]);
    }
    assert(s[z_end + 1] == COLON) by {
        assert(text[z_end + 1 - at] == COLON);
        assert(s[at + (z_end + 1 - at)] == text[z_end + 1 - at]);
    }
    assert forall|i: int| 0 <= i < dx.len() implies s[x_from + i] == #[trigger] dx[i] by {
        assert(text[2 + i] == dx[i]);
        assert(s[at + (2 + i)] == text[2 + i]);
    }
    lemma_digits_run(s, x_from, dx);
    assert forall|i: int| 0 <= i < dy.len() implies s[x_end + 1 + i] == #[trigger] dy[i] by {
        assert(text[x_end + 1 - at + i] == dy[i]);
        assert(s[at + (x_end + 1 - at + i)] == text[x_end + 1 - at + i]);
    }
    lemma_digits_run(s, x_end + 1, dy);
    assert forall|i: int| 0 <= i < dz.len() implies s[y_end + 1 + i] == #[trigger] dz[i] by {
        assert(text[y_end + 1 - at + i] == dz[i]);
        assert(s[at + (y_end + 1 - at + i)] == text[y_end + 1 - at + i]);
    }
    lemma_digits_run(s, y_end + 1, dz);
}

/// Within the text of a chunk nothing looks like the start of a header but
/// its own header: elsewhere no `^` stands, or not `(` behind it.
proof fn lemma_chunk_text_carets(chunk: ChunkView, i: int)
    requires
        1 <= i < chunk_text(chunk).len(),
    ensures
        chunk_text(chunk)[i] != CARET || (i + 1 < chunk_text(chunk).len() && chunk_text(chunk)[i
            + 1] != OPEN),
{
    let text = chunk_text(chunk);
    let sx = signed_decimal(chunk.position.0);
    let sy = signed_decimal(chunk.position.1);
    let sz = signed_decimal(chunk.position.2);
    let body = runs_text(chunk.cells, 0);
    lemma_signed_bytes(chunk.position.0);
    lemma_signed_bytes(chunk.position.1);
    lemma_signed_bytes(chunk.position.2);
    lemma_runs_text_bytes(chunk.cells, 0);
    let header = header_text(chunk.position.0, chunk.position.1, chunk.position.2);
    assert(header =~= seq![CARET, OPEN] + sx + seq![COMMA] + sy + seq![COMMA] + sz + seq![
        CLOSE,
        COLON,
    ]);
    assert(text =~= header + seq![CARRIAGE_RETURN, LINE_FEED] + body + seq![
        CARET,
        CARRIAGE_RETURN,
        LINE_FEED,
    ]);
    let a = 2 + sx.len();
    let b = a + 1 + sy.len();
    let c = b + 1 + sz.len();
    let h = header.len() as int;
    assert(h == c + 2);
    if i < h {
        if i < 2 {
        } else if i < a {
            assert(header[i] == sx[i - 2]);
        } else if i == a {
        } else if i < b {
            assert(header[i] == sy[i - a - 1]);
        } else if i == b {
        } else if i < c {
            assert(header[i] == sz[i - b - 1]);
        } else {
        }
        assert(text[i] == header[i]);
    } else if i < h + 2 {
    } else if i < h + 2 + body.len() {
        assert(text[i] == body[i - h - 2]);
    } else if i == h + 2 + body.len() {
        assert(text[i + 1] == CARRIAGE_RETURN);
    } else {
    }
}

/// The text of a chunk is not empty.
proof fn lemma_chunk_text_len(chunk: ChunkView)
    ensures
        chunk_text(chunk).len() >= 1,
{
}

/// One chunk more makes the world file longer by the text of that chunk.
proof fn lemma_chunk_start_next(chunks: Seq<ChunkView>, j: int)
    requires
        0 <= j < chunks.len(),
    ensures
        chunk_start(chunks, j + 1) == chunk_start(chunks, j) + chunk_text(chunks[j]).len(),
{
    assert(chunks.take(j + 1).drop_last() =~= chunks.take(j));
}

/// The chunks start one behind another.
proof fn lemma_chunk_start_grows(chunks: Seq<ChunkView>, j: int, k: int)
    requires
        0 <= j < k <= chunks.len(),
    ensures
        chunk_start(chunks, j) < chunk_start(chunks, k),
    decreases k - j,
{
    lemma_chunk_start_next(chunks, k - 1);
    lemma_chunk_text_len(chunks[k - 1]);
    if j < k - 1 {
        lemma_chunk_start_grows(chunks, j, k - 1);
    }
}

/// The text of each chunk stands in the world file where the chunk starts.
pub proof fn lemma_chunk_stands(chunks: Seq<ChunkView>, j: int)
    requires
        0 <= j < chunks.len(),
    ensures
        stands_at(world_text(chunks), chunk_start(chunks, j), chunk_text(chunks[j])),
    decreases chunks.len(),
{
    let earlier = chunks.drop_last();
    if j == chunks.len() - 1 {
        assert(chunks.take(j) =~= earlier);
    } else {
        lemma_chunk_stands(earlier, j);
        assert(earlier.take(j) =~= chunks.take(j));
        let text = chunk_text(chunks[j]);
        let start = chunk_start(chunks, j);
        assert forall|i: int| 0 <= i < text.len() implies world_text(chunks)[start + i]
            == #[trigger] text[i] by {
            assert(world_text(earlier)[start + i] == text[i]);
        }
    }
}

/// In a world file nothing looks like the start of a header but where a
/// chunk starts.
proof fn lemma_world_text_carets(chunks: Seq<ChunkView>, at: int)
    requires
        0 <= at < world_text(chunks).len(),
    ensures
        (exists|j: int| 0 <= j < chunks.len() && at == #[trigger] chunk_start(chunks, j))
            || world_text(chunks)[at] != CARET || (at + 1 < world_text(chunks).len()
            && world_text(chunks)[at + 1] != OPEN),
    decreases chunks.len(),
{
    if chunks.len() > 0 {
        let earlier = chunks.drop_last();
        let before = world_text(earlier);
        let last = chunks.len() - 1;
        assert(chunks.take(last) =~= earlier);
        if at == before.len() {
            assert(at == chunk_start(chunks, last));
        } else if at > before.len() {
            lemma_chunk_text_carets(chunks.last(), at - before.len());
        } else {
            lemma_world_text_carets(earlier, at);
            if exists|j: int| 0 <= j < earlier.len() && at == #[trigger] chunk_start(earlier, j) {
                let j = choose|j: int| 0 <= j < earlier.len() && at == #[trigger] chunk_start(
                    earlier,
                    j,
                );
                assert(earlier.take(j) =~= chunks.take(j));
                assert(at == chunk_start(chunks, j));
            }
        }
    }
}

/// A world file that is written loads back. Where the file holds the text of
/// chunks, one after another, each at a position without a negative part:
/// the index of the file knows the position of each chunk; the offset it
/// holds is the end of that chunk's header; and what is read there is the
/// chunk. Of two chunks at one position it is the later.
pub proof fn lemma_written_world_loads_back(chunks: Seq<ChunkView>, k: int)
    requires
        forall|i: int|
            0 <= i < chunks.len() ==> (#[trigger] chunks[i]).cells.len() == CELLS && addressable(
                chunks[i].position,
            ),
        0 <= k < chunks.len(),
        forall|later: int|
            k < later < chunks.len() ==> (#[trigger] chunks[later]).position != chunks[k].position,
    ensures
        index_of(world_text(chunks)).contains_key(chunks[k].position),
        index_of(world_text(chunks))[chunks[k].position] == chunk_start(chunks, k) + header_text(
            chunks[k].position.0,
            chunks[k].position.1,
            chunks[k].position.2,
        ).len(),
        decode(world_text(chunks), index_of(world_text(chunks))[chunks[k].position]) == Some(
            clean(chunks[k].cells),
        ),
{
    let file = world_text(chunks);
    let at = chunk_start(chunks, k);
    let chunk = chunks[k];
    lemma_header_of_chunk(chunks, k);
    assert forall|later: int| at < later < file.len() implies !#[trigger] names(
        file,
        later,
        chunk.position,
    ) by {
        lemma_world_text_carets(chunks, later);
        if exists|j: int| 0 <= j < chunks.len() && later == #[trigger] chunk_start(chunks, j) {
            let j = choose|j: int| 0 <= j < chunks.len() && later == #[trigger] chunk_start(
                chunks,
                j,
            );
            if j <= k {
                if j < k {
                    lemma_chunk_start_grows(chunks, j, k);
                }
            } else {
                lemma_header_of_chunk(chunks, j);
                assert(chunks[j].position != chunk.position);
            }
        }
    }
    lemma_chunk_stands(chunks, k);
    lemma_index_holds_the_last_header(file, file.len() as int, at);
    lemma_decode_where_chunk_stands(
        file,
        at,
        chunk.position.0,
        chunk.position.1,
        chunk.position.2,
        chunk.cells,
    );
}

/// Where a chunk starts in a world file, the index reads the header of that
/// chunk.
proof fn lemma_header_of_chunk(chunks: Seq<ChunkView>, j: int)
    requires
        0 <= j < chunks.len(),
        addressable(chunks[j].position),
    ensures
        header_at(world_text(chunks), chunk_start(chunks, j)) matches Some(header)
            && header.coordinates() == chunks[j].position && header.end == chunk_start(chunks, j)
            + header_text(
            chunks[j].position.0,
            chunks[j].position.1,
            chunks[j].position.2,
        ).len(),
{
    let file = world_text(chunks);
    let at = chunk_start(chunks, j);
    let chunk = chunks[j];
    let text = chunk_text(chunk);
    let header = header_text(chunk.position.0, chunk.position.1, chunk.position.2);
    lemma_chunk_stands(chunks, j);
    assert forall|i: int| 0 <= i < header.len() implies file[at + i] == #[trigger] header[i] by {
        assert(text[i] == header[i]);
    }
    lemma_header_stands(file, at, chunk.position.0, chunk.position.1, chunk.position.2);
}

} // verus!
