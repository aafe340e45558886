//! The index of a world file: where the body of each chunk starts.
//!
//! A chunk is announced by a header, `^(X,Y,Z):`, with three numbers without
//! a sign. The index maps the coordinates of each header to the offset of the
//! byte after it. Where two headers name the same coordinates, the later one
//! counts.

use vstd::prelude::*;
use std::collections::HashMap;
use super::chunk::{coord, Coord};
use super::codec::{CARET, CLOSE, COLON, COMMA, OPEN};
use super::decimal::{all_digits, decimal_value, is_digit, parse_decimal};

verus! {

/// A header found in a text: the numbers it names and where it ends.
pub struct Header {
    pub x: nat,
    pub y: nat,
    pub z: nat,
    pub end: int,
}

impl Header {
    pub open spec fn coordinates(self) -> Coord {
        (self.x as int, self.y as int, self.z as int)
    }
}

/// Where the digits that start at `from` end: the first place at or after
/// `from` where no digit stands.
pub open spec fn digits_end(s: Seq<u8>, from: int) -> int
    decreases s.len() - from,
{
    if from < 0 || from >= s.len() || !is_digit(s[from]) {
        from
    } else {
        digits_end(s, from + 1)
    }
}

/// The header that starts at `at`, if one does: `^(`, three numbers of one
/// or more digits with a comma between them, and `):`.
pub open spec fn header_at(s: Seq<u8>, at: int) -> Option<Header> {
    let x_end = digits_end(s, at + 2);
    let y_end = digits_end(s, x_end + 1);
    let z_end = digits_end(s, y_end + 1);
    if 0 <= at && at + 1 < s.len() && s[at] == CARET && s[at + 1] == OPEN && at + 2 < x_end
        && x_end < s.len() && s[x_end] == COMMA && x_end + 1 < y_end && y_end < s.len()
        && s[y_end] == COMMA && y_end + 1 < z_end && z_end + 1 < s.len() && s[z_end] == CLOSE
        && s[z_end + 1] == COLON {
        Some(
            Header {
                x: decimal_value(s.subrange(at + 2, x_end)),
                y: decimal_value(s.subrange(x_end + 1, y_end)),
                z: decimal_value(s.subrange(y_end + 1, z_end)),
                end: z_end + 2,
            },
        )
    } else {
        None
    }
}

/// The index of the headers that start before `end`.
pub open spec fn index_before(s: Seq<u8>, end: int) -> Map<Coord, int>
    decreases end,
{
    if end <= 0 {
        Map::empty()
    } else {
        match header_at(s, end - 1) {
            Some(header) => index_before(s, end - 1).insert(header.coordinates(), header.end),
            None => index_before(s, end - 1),
        }
    }
}

/// The index of a text: for each header in it, the offset after the header
/// under the coordinates that the header names.
pub open spec fn index_of(s: Seq<u8>) -> Map<Coord, int> {
    index_before(s, s.len() as int)
}

/// The coordinates that a position of a chunk can name: none is negative, and
/// each fits in 32 bits with a sign.
pub open spec fn addressable(c: Coord) -> bool {
    0 <= c.0 <= i32::MAX && 0 <= c.1 <= i32::MAX && 0 <= c.2 <= i32::MAX
}

/// The entries of an index that can be asked for.
pub open spec fn addressable_part(index: Map<Coord, int>) -> Map<Coord, int> {
    index.restrict(Set::new(|c: Coord| addressable(c)))
}

/// Three coordinates as one key.
pub open spec fn pack(c: Coord) -> u128 {
    (c.0 * 0x1_0000_0000_0000_0000 + c.1 * 0x1_0000_0000 + c.2) as u128
}

/// The index that a table of keys stands for.
pub open spec fn unpacked(table: Map<u128, u64>) -> Map<Coord, int> {
    Map::new(
        |c: Coord| addressable(c) && table.contains_key(pack(c)),
        |c: Coord| table[pack(c)] as int,
    )
}

/// The digits that start at `from` are digits, and what follows them is none.
pub proof fn lemma_digits_end(s: Seq<u8>, from: int)
    requires
        0 <= from <= s.len(),
    ensures
        from <= digits_end(s, from) <= s.len(),
        forall|i: int| from <= i < digits_end(s, from) ==> is_digit(#[trigger] s[i]),
        digits_end(s, from) == s.len() || !is_digit(s[digits_end(s, from)]),
    decreases s.len() - from,
{
    if from < s.len() && is_digit(s[from]) {
        lemma_digits_end(s, from + 1);
    }
}

/// Headers do not overlap: within a header no other header starts.
pub proof fn lemma_headers_do_not_overlap(s: Seq<u8>, at: int, inside: int)
    requires
        header_at(s, at) matches Some(header) && at < inside < header.end,
    ensures
        header_at(s, inside) is None,
{
    let x_end = digits_end(s, at + 2);
    let y_end = digits_end(s, x_end + 1);
    let z_end = digits_end(s, y_end + 1);
    lemma_digits_end(s, at + 2);
    lemma_digits_end(s, x_end + 1);
    lemma_digits_end(s, y_end + 1);
    assert(s[inside] != CARET);
}

/// Whether a header that names `c` starts at `at`.
pub open spec fn names(s: Seq<u8>, at: int, c: Coord) -> bool {
    header_at(s, at) matches Some(header) && header.coordinates() == c
}

/// The index knows the coordinates that some header names, and no others.
pub proof fn lemma_index_knows_the_headers(s: Seq<u8>, end: int, c: Coord)
    ensures
        index_before(s, end).contains_key(c) <==> exists|at: int|
            0 <= at < end && #[trigger] names(s, at, c),
    decreases end,
{
    if end > 0 {
        lemma_index_knows_the_headers(s, end - 1, c);
        if index_before(s, end).contains_key(c) {
            if names(s, end - 1, c) {
            } else {
                let at = choose|at: int| 0 <= at < end - 1 && #[trigger] names(s, at, c);
                assert(names(s, at, c));
            }
        }
    }
}

/// The later of two headers counts: under the coordinates that a header
/// names the index holds the end of that header, unless a later header names
/// them too.
pub proof fn lemma_index_holds_the_last_header(s: Seq<u8>, end: int, at: int)
    requires
        0 <= at < end,
        header_at(s, at) is Some,
        forall|later: int|
            at < later < end ==> !#[trigger] names(
                s,
                later,
                header_at(s, at).unwrap().coordinates(),
            ),
    ensures
        index_before(s, end).contains_key(header_at(s, at).unwrap().coordinates()),
        index_before(s, end)[header_at(s, at).unwrap().coordinates()] == header_at(
            s,
            at,
        ).unwrap().end,
    decreases end,
{
    if at < end - 1 {
        let c = header_at(s, at).unwrap().coordinates();
        assert(!names(s, end - 1, c));
        lemma_index_holds_the_last_header(s, end - 1, at);
    }
}

/// The headers that start within a header add nothing to the index.
proof fn lemma_index_skips_header(s: Seq<u8>, at: int, to: int)
    requires
        header_at(s, at) matches Some(header) && at < to <= header.end,
    ensures
        index_before(s, to) == index_before(s, at + 1),
    decreases to - at,
{
    if to > at + 1 {
        lemma_headers_do_not_overlap(s, at, to - 1);
        lemma_index_skips_header(s, at, to - 1);
    }
}

/// Different coordinates have different keys.
pub proof fn lemma_pack_is_injective(a: Coord, b: Coord)
    requires
        addressable(a),
        addressable(b),
        pack(a) == pack(b),
    ensures
        a == b,
{
}

/// Three coordinates as one key.
pub fn pack_position(position: [i32; 3]) -> (key: Option<u128>)
    ensures
        key == if addressable(coord(position)) {
            Some(pack(coord(position)))
        } else {
            None
        },
{
    if position[0] < 0 || position[1] < 0 || position[2] < 0 {
        None
    } else {
        Some(
            position[0] as u128 * 0x1_0000_0000_0000_0000 + position[1] as u128 * 0x1_0000_0000
                + position[2] as u128,
        )
    }
}

/// Finds where the digits that start at `from` end.
fn skip_digits(s: &[u8], from: usize) -> (end: usize)
    requires
        from <= s@.len(),
    ensures
        end == digits_end(s@, from as int),
        from <= end <= s@.len(),
{
    let mut i: usize = from;
    while i < s.len() && 48 <= s[i] && s[i] <= 57
        invariant
            from <= i <= s@.len(),
            digits_end(s@, from as int) == digits_end(s@, i as int),
        decreases s@.len() - i,
    {
        i = i + 1;
    }
    i
}

/// A header as the scan finds it: where it ends, and the position it names
/// if that is one a chunk can have.
pub struct FoundHeader {
    pub end: usize,
    pub position: Option<[i32; 3]>,
}

/// Reads the number that stands in `s[from..end]`, known to be digits, if it
/// fits in 32 bits with a sign.
fn read_coordinate(s: &[u8], from: usize, end: usize) -> (r: Option<i32>)
    requires
        from < end <= s@.len(),
        end == digits_end(s@, from as int),
    ensures
        r == if decimal_value(s@.subrange(from as int, end as int)) <= i32::MAX {
            Some(decimal_value(s@.subrange(from as int, end as int)) as i32)
        } else {
            None
        },
{
    proof {
        lemma_digits_end(s@, from as int);
        assert(all_digits(s@.subrange(from as int, end as int)));
    }
    match parse_decimal(s, from, end, 0x7fff_ffff) {
        Some(v) => Some(v as i32),
        None => None,
    }
}

/// Tells whether a header starts at `at`, and reads it.
pub fn find_header(s: &[u8], at: usize) -> (r: Option<FoundHeader>)
    requires
        at < s@.len(),
    ensures
        match header_at(s@, at as int) {
            Some(header) => r matches Some(found) && found.end == header.end && found.position
                == if addressable(header.coordinates()) {
                Some(
                    [header.x as i32, header.y as i32, header.z as i32],
                )
            } else {
                None
            },
            None => r is None,
        },
{
    let n: usize = s.len();
    if s[at] != CARET || n - at < 2 || s[at + 1] != OPEN {
        return None;
    }
    let x_end: usize = skip_digits(s, at + 2);
    if x_end == at + 2 || x_end >= n || s[x_end] != COMMA {
        return None;
    }
    let y_end: usize = skip_digits(s, x_end + 1);
    if y_end == x_end + 1 || y_end >= n || s[y_end] != COMMA {
        return None;
    }
    let z_end: usize = skip_digits(s, y_end + 1);
    if z_end == y_end + 1 || n - z_end < 2 || s[z_end] != CLOSE || s[z_end + 1] != COLON {
        return None;
    }
    let x = read_coordinate(s, at + 2, x_end);
    let y = read_coordinate(s, x_end + 1, y_end);
    let z = read_coordinate(s, y_end + 1, z_end);
    let position = match (x, y, z) {
        (Some(x), Some(y), Some(z)) => Some([x, y, z]),
        _ => None,
    };
    Some(FoundHeader { end: z_end + 2, position })
}

/// Adds the index of `content` to `table`. An entry of the table whose
/// coordinates a header of `content` names is replaced.
pub fn scan_headers(content: &[u8], table: &mut HashMap<u128, u64>)
    ensures
        unpacked(final(table)@) == unpacked(old(table)@).union_prefer_right(
            addressable_part(index_of(content@)),
        ),
{
    let n: usize = content.len();
    let mut at: usize = 0;
    assert(unpacked(table@) =~= unpacked(old(table)@).union_prefer_right(
        addressable_part(index_before(content@, 0)),
    ));
    while at < n
        invariant
            n == content@.len(),
            at <= n,
            unpacked(table@) == unpacked(old(table)@).union_prefer_right(
                addressable_part(index_before(content@, at as int)),
            ),
        decreases n - at,
    {
        let ghost earlier = index_before(content@, at as int);
        let ghost before = table@;
        match find_header(content, at) {
            Some(found) => {
                let ghost header = header_at(content@, at as int).unwrap();
                if let Some(position) = found.position {
                    if let Some(key) = pack_position(position) {
                        table.insert(key, found.end as u64);
                    }
                    proof {
                        let c = header.coordinates();
                        assert forall|other: Coord|
                            addressable(other) && pack(other) == pack(c) implies other == c by {
                            lemma_pack_is_injective(other, c);
                        }
                        assert(unpacked(table@) =~= unpacked(before).insert(c, header.end));
                    }
                }
                proof {
                    lemma_index_skips_header(content@, at as int, found.end as int);
                    assert(unpacked(table@) =~= unpacked(old(table)@).union_prefer_right(
                        addressable_part(earlier.insert(header.coordinates(), header.end)),
                    ));
                }
                at = found.end;
            },
            None => {
                at = at + 1;
            },
        }
    }
}

} // verus!
