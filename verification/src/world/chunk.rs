//! A chunk: a cube of 16 x 16 x 16 voxels at a place in the world.

use vstd::prelude::*;
use vstd::string::StringExecFns;
use super::codec::{
    decode, decode_from, encode, fill, header_text, lemma_encode_is_ascii, pad, read_token, run,
    run_length, runs_text, token_text, CARET, CARRIAGE_RETURN, CELLS, COMMA, LINE_FEED, STAR, TAB,
};
use super::decimal::{
    append_decimal, append_signed, ascii_text, decimal_digits, lemma_ascii_text_bytes,
};

verus! {

/// How many voxels lie along each edge of a chunk.
pub const SIDE: usize = 16;

/// One cell of a chunk. Its id names the kind of voxel; id 0 is air.
#[derive(Clone, Copy, Debug, PartialEq, Eq)]
pub struct Voxel {
    pub id: u16,
}

/// A place in the world, along x, y and z.
pub type Coord = (int, int, int);

/// A chunk as a value: where it lies, counted in chunks, and the ids of its
/// 4096 voxels. The voxel at `(x, y, z)` within the chunk is cell
/// `cell_index(x, y, z)`: the cells run through z first, then x, then y.
pub struct ChunkView {
    pub position: Coord,
    pub cells: Seq<u16>,
}

/// A cube of 16 x 16 x 16 voxels, and where it lies in the world.
#[derive(Clone, Copy, Debug, PartialEq, Eq)]
pub struct Chunk {
    position: [i32; 3],
    data: [Voxel; 4096],
}

/// A position as a place.
pub open spec fn coord(position: [i32; 3]) -> Coord {
    (position[0] as int, position[1] as int, position[2] as int)
}

/// The cell that holds the voxel at `(x, y, z)` within a chunk.
pub open spec fn cell_index(x: int, y: int, z: int) -> int {
    (y * 16 + x) * 16 + z
}

/// A color, each part in thousandths of full strength.
#[derive(Clone, Copy, Debug, PartialEq, Eq)]
pub struct Color {
    pub red: u16,
    pub green: u16,
    pub blue: u16,
    pub alpha: u16,
}

/// A voxel to draw: where it lies in the world, counted in voxels, and its
/// color.
#[derive(Clone, Copy, Debug, PartialEq, Eq)]
pub struct Instance {
    pub x: i64,
    pub y: i64,
    pub z: i64,
    pub color: Color,
}

/// What was set right while a chunk was read.
#[derive(Clone, Copy, Debug, PartialEq, Eq)]
pub struct Notes {
    /// How many cells were filled with air because their token named no id.
    pub recovered: usize,
    /// Whether the body held more voxels than a chunk has cells, so that
    /// the rest of it was not read.
    pub overflow: bool,
}

/// A chunk that was read, and what was set right on the way.
#[derive(Clone, Copy, Debug, PartialEq, Eq)]
pub struct Reading {
    pub chunk: Chunk,
    pub notes: Notes,
}

/// The color of each kind of voxel. A kind that has none is drawn in black
/// that lets everything through.
pub open spec fn color_of(id: u16) -> Color {
    if id == 1 {
        Color { red: 20, green: 550, blue: 0, alpha: 1000 }
    } else if id == 2 {
        Color { red: 430, green: 350, blue: 286, alpha: 1000 }
    } else if id == 3 {
        Color { red: 110, green: 385, blue: 102, alpha: 1000 }
    } else {
        Color { red: 0, green: 0, blue: 0, alpha: 0 }
    }
}

/// The instance for cell `i` of a chunk: the chunk lies 16 voxels further
/// for each step of its position, and the cell `i % 16` along z, `i / 16 % 16`
/// along x and `i / 256` along y within it.
pub open spec fn instance_at(chunk: ChunkView, i: int) -> Instance {
    Instance {
        x: (chunk.position.0 * 16 + i / 16 % 16) as i64,
        y: (chunk.position.1 * 16 + i / 256) as i64,
        z: (chunk.position.2 * 16 + i % 16) as i64,
        color: color_of(chunk.cells[i]),
    }
}

/// The instances for the first `n` cells of a chunk: one for each cell that
/// is not air, in the order of the cells.
pub open spec fn instances_of(chunk: ChunkView, n: int) -> Seq<Instance>
    decreases n,
{
    if n <= 0 {
        Seq::empty()
    } else if chunk.cells[n - 1] != 0 {
        instances_of(chunk, n - 1).push(instance_at(chunk, n - 1))
    } else {
        instances_of(chunk, n - 1)
    }
}

/// Where the chunk at `(x, y, z)` stands in a stress list of `range` chunks
/// along each axis.
pub open spec fn stress_index(range: int, x: int, y: int, z: int) -> int {
    (x * range + z) * range + y
}

impl Color {
    /// The color of the voxels of kind `id`.
    pub fn of(id: u16) -> (color: Color)
        ensures
            color == color_of(id),
    {
        if id == 1 {
            Color { red: 20, green: 550, blue: 0, alpha: 1000 }
        } else if id == 2 {
            Color { red: 430, green: 350, blue: 286, alpha: 1000 }
        } else if id == 3 {
            Color { red: 110, green: 385, blue: 102, alpha: 1000 }
        } else {
            Color { red: 0, green: 0, blue: 0, alpha: 0 }
        }
    }
}

impl View for Chunk {
    type V = ChunkView;

    closed spec fn view(&self) -> ChunkView {
        ChunkView {
            position: coord(self.position),
            cells: Seq::new(4096, |i: int| self.data[i].id),
        }
    }
}

impl Chunk {
    /// A chunk always has 4096 cells.
    pub proof fn lemma_cell_count(self)
        ensures
            self@.cells.len() == CELLS,
    {
    }

    /// A chunk of air at `position`. Nothing of it is drawn.
    pub fn new(position: [i32; 3]) -> (chunk: Chunk)
        ensures
            chunk@.position == coord(position),
            chunk@.cells == run(0, CELLS as nat),
            instances_of(chunk@, CELLS as int) == Seq::<Instance>::empty(),
    {
        let chunk = Chunk { position, data: [Voxel { id: 0 };4096] };
        assert(chunk@.cells =~= run(0, CELLS as nat));
        proof {
            lemma_air_has_no_instances(chunk@, CELLS as int);
        }
        chunk
    }

    /// Where the chunk lies, counted in chunks.
    pub fn position(&self) -> (position: [i32; 3])
        ensures
            coord(position) == self@.position,
    {
        self.position
    }

    /// The voxel at `(x, y, z)` within the chunk.
    pub fn voxel(&self, x: usize, y: usize, z: usize) -> (voxel: Voxel)
        requires
            x < SIDE,
            y < SIDE,
            z < SIDE,
        ensures
            voxel.id == self@.cells[cell_index(x as int, y as int, z as int)],
    {
        self.data[(y * 16 + x) * 16 + z]
    }

    /// Puts `voxel` at `(x, y, z)` within the chunk.
    pub fn set_voxel(&mut self, x: usize, y: usize, z: usize, voxel: Voxel)
        requires
            x < SIDE,
            y < SIDE,
            z < SIDE,
        ensures
            final(self)@.position == old(self)@.position,
            final(self)@.cells == old(self)@.cells.update(
                cell_index(x as int, y as int, z as int),
                voxel.id,
            ),
    {
        self.data[(y * 16 + x) * 16 + z] = voxel;
        assert(self@.cells =~= old(self)@.cells.update(
            cell_index(x as int, y as int, z as int),
            voxel.id,
        ));
    }

    /// Fills the `n` cells from `start` on with `id`.
    fn fill_run(&mut self, start: usize, n: usize, id: u16)
        requires
            start + n <= CELLS,
        ensures
            final(self)@.position == old(self)@.position,
            final(self)@.cells == old(self)@.cells.take(start as int) + run(id, n as nat) + old(
                self,
            )@.cells.skip(start + n),
    {
        let mut k: usize = 0;
        while k < n
            invariant
                k <= n,
                start + n <= CELLS,
                self@.position == old(self)@.position,
                forall|i: int|
                    0 <= i < CELLS ==> self@.cells[i] == if start <= i < start + k {
                        id
                    } else {
                        old(self)@.cells[i]
                    },
            decreases n - k,
        {
            let ghost before = self@.cells;
            self.data[start + k] = Voxel { id };
            assert(self@.cells =~= before.update(start + k, id));
            k = k + 1;
        }
        assert(self@.cells =~= old(self)@.cells.take(start as int) + run(id, n as nat) + old(
            self,
        )@.cells.skip(start + n));
    }

    /// Reads the chunk whose body starts at byte `location` of `file`, the
    /// text of a world file, places it at `position`, and tells what was set
    /// right on the way.
    ///
    /// There is no chunk where the text is no body: where a byte stands that
    /// the grammar does not know, or the text ends before the body does.
    pub fn read(file: &[u8], position: [i32; 3], location: u64) -> (r: Option<Reading>)
        ensures
            match decode(file@, location as int) {
                Some(outcome) => r matches Some(reading) && reading.chunk@.position == coord(
                    position,
                ) && reading.chunk@.cells == outcome.cells && reading.notes.recovered
                    == outcome.recovered && reading.notes.overflow == outcome.overflow,
                None => r is None,
            },
    {
        let mut chunk = Chunk::new(position);
        let n: usize = file.len();
        if location >= n as u64 {
            return None;
        }
        let mut pos: usize = location as usize;
        let mut cursor: usize = 0;
        let mut recovered: usize = 0;
        let mut token: Vec<u8> = Vec::new();
        assert(chunk@.cells.take(0) =~= Seq::<u16>::empty());
        while pos < n
            invariant
                n == file@.len(),
                pos <= n,
                recovered <= cursor <= CELLS,
                chunk@.position == coord(position),
                forall|i: int| cursor <= i < CELLS ==> chunk@.cells[i] == 0,
                decode_from(
                    file@,
                    pos as int,
                    token@,
                    chunk@.cells.take(cursor as int),
                    recovered as nat,
                ) == decode(file@, location as int),
            decreases n - pos,
        {
            let b: u8 = file[pos];
            if b == LINE_FEED || b == CARRIAGE_RETURN || b == TAB {
                pos = pos + 1;
            } else if b == CARET {
                assert(pad(chunk@.cells.take(cursor as int)) =~= chunk@.cells);
                return Some(Reading { chunk, notes: Notes { recovered, overflow: false } });
            } else if (48 <= b && b <= 57) || b == STAR {
                token.push(b);
                pos = pos + 1;
            } else if b == COMMA {
                let read = read_token(token.as_slice());
                let space: usize = CELLS - cursor;
                let overflow: bool = read.1 > space as u64;
                let count: usize = if overflow {
                    space
                } else {
                    read.1 as usize
                };
                let ghost before = chunk@.cells;
                match read.0 {
                    Some(id) => {
                        chunk.fill_run(cursor, count, id);
                    },
                    None => {
                        chunk.fill_run(cursor, count, 0);
                        recovered = recovered + count;
                    },
                }
                assert(chunk@.cells.take(cursor + count) =~= fill(
                    before.take(cursor as int),
                    token@,
                ));
                cursor = cursor + count;
                if overflow {
                    assert(chunk@.cells.take(cursor as int) =~= chunk@.cells);
                    return Some(Reading { chunk, notes: Notes { recovered, overflow: true } });
                }
                token.clear();
                pos = pos + 1;
            } else {
                return None;
            }
        }
        None
    }

    /// Reads the chunk whose body starts at byte `location` of `file`, the
    /// text of a world file, and places it at `position`.
    ///
    /// There is no chunk where the text is no body: where a byte stands that
    /// the grammar does not know, or the text ends before the body does.
    pub fn from(file: &[u8], position: [i32; 3], location: u64) -> (r: Option<Chunk>)
        ensures
            match decode(file@, location as int) {
                Some(outcome) => r matches Some(chunk) && chunk@.position == coord(position)
                    && chunk@.cells == outcome.cells,
                None => r is None,
            },
    {
        match Chunk::read(file, position, location) {
            Some(reading) => Some(reading.chunk),
            None => None,
        }
    }

    /// The length of the run that starts at cell `start`.
    fn run_from(&self, start: usize) -> (count: usize)
        requires
            start < CELLS,
        ensures
            count == run_length(self@.cells, start as int),
            start + count <= CELLS,
    {
        let id: u16 = self.data[start].id;
        let mut end: usize = start + 1;
        while end < CELLS && self.data[end].id == id
            invariant
                start < end <= CELLS,
                self@.cells[end - 1] == id,
                run_length(self@.cells, start as int) == end - 1 - start + run_length(
                    self@.cells,
                    end - 1,
                ),
            decreases CELLS - end,
        {
            end = end + 1;
        }
        end - start
    }

    /// The text of the chunk, as a world file holds it: the header with the
    /// chunk's position, then each run of equal voxels as one token.
    pub fn write(&self) -> (text: String)
        ensures
            text@ == ascii_text(
                encode(self@.position.0, self@.position.1, self@.position.2, self@.cells),
            ),
            vstd::utf8::encode_utf8(text@) == encode(
                self@.position.0,
                self@.position.1,
                self@.position.2,
                self@.cells,
            ),
    {
        let ghost x = self@.position.0;
        let ghost y = self@.position.1;
        let ghost z = self@.position.2;
        let ghost cells = self@.cells;
        let ghost line_break = seq![CARRIAGE_RETURN, LINE_FEED];
        proof {
            reveal_strlit("^(");
            reveal_strlit(",");
            reveal_strlit("):\r\n");
            reveal_strlit("^\r\n");
        }
        let mut out = String::new();
        out.append("^(");
        append_signed(&mut out, self.position[0]);
        out.append(",");
        append_signed(&mut out, self.position[1]);
        out.append(",");
        append_signed(&mut out, self.position[2]);
        out.append("):\r\n");
        let ghost mut written = header_text(x, y, z) + line_break;
        assert(out@ =~= ascii_text(written));
        let mut i: usize = 0;
        while i < CELLS
            invariant
                i <= CELLS,
                cells == self@.cells,
                out@ == ascii_text(written),
                written + runs_text(cells, i as int) == header_text(x, y, z) + line_break
                    + runs_text(cells, 0),
            decreases CELLS - i,
        {
            let id: u16 = self.data[i].id;
            let count: usize = self.run_from(i);
            let ghost token = token_text(id, count as nat);
            proof {
                reveal_strlit("*");
                reveal_strlit(",");
            }
            append_decimal(&mut out, id as u64);
            assert(out@ =~= ascii_text(written + decimal_digits(id as nat)));
            if count > 1 {
                out.append("*");
                assert(out@ =~= ascii_text(written + decimal_digits(id as nat) + seq![STAR]));
                append_decimal(&mut out, count as u64);
                assert(out@ =~= ascii_text(
                    written + decimal_digits(id as nat) + seq![STAR] + decimal_digits(
                        count as nat,
                    ),
                ));
                assert(written + decimal_digits(id as nat) + seq![STAR] + decimal_digits(
                    count as nat,
                ) =~= written + token);
            }
            assert(out@ == ascii_text(written + token));
            out.append(",");
            assert(out@ =~= ascii_text(written + token + seq![COMMA]));
            proof {
                assert(written + runs_text(cells, i as int) =~= (written + token + seq![COMMA])
                    + runs_text(cells, i + count));
                written = written + token + seq![COMMA];
            }
            i = i + count;
        }
        out.append("^\r\n");
        assert(out@ =~= ascii_text(written + seq![CARET, CARRIAGE_RETURN, LINE_FEED]));
        assert(written + seq![CARET, CARRIAGE_RETURN, LINE_FEED] =~= encode(x, y, z, cells));
        proof {
            lemma_encode_is_ascii(x, y, z, cells);
            lemma_ascii_text_bytes(encode(x, y, z, cells));
        }
        out
    }

    /// Adds to `list` the voxels of the chunk that are to be drawn: one
    /// instance for each voxel that is not air.
    pub fn instances(&self, list: &mut Vec<Instance>)
        ensures
            final(list)@ == old(list)@ + instances_of(self@, CELLS as int),
    {
        let mut i: usize = 0;
        assert(list@ =~= old(list)@ + instances_of(self@, 0));
        while i < CELLS
            invariant
                i <= CELLS,
                list@ == old(list)@ + instances_of(self@, i as int),
            decreases CELLS - i,
        {
            let id: u16 = self.data[i].id;
            if id != 0 {
                let instance = Instance {
                    x: self.position[0] as i64 * 16 + (i / 16 % 16) as i64,
                    y: self.position[1] as i64 * 16 + (i / 256) as i64,
                    z: self.position[2] as i64 * 16 + (i % 16) as i64,
                    color: Color::of(id),
                };
                assert(instance == instance_at(self@, i as int));
                list.push(instance);
            }
            i = i + 1;
            assert(list@ =~= old(list)@ + instances_of(self@, i as int));
        }
    }

    /// A cube of `range` chunks along each axis, from `(0, 0, 0)` on, each
    /// full of voxels of kind 2. The chunk at `(x, y, z)` stands at
    /// `stress_index(range, x, y, z)` in the list.
    pub fn stress(range: u32) -> (list: Vec<Chunk>)
        requires
            range * range * range <= usize::MAX,
        ensures
            list@.len() == range * range * range,
            forall|x: int, y: int, z: int|
                0 <= x < range && 0 <= y < range && 0 <= z < range ==> {
                    let chunk = list@[#[trigger] stress_index(range as int, x, y, z)];
                    chunk@.position == (x, y, z) && chunk@.cells == run(2, CELLS as nat)
                },
    {
        let mut list: Vec<Chunk> = Vec::new();
        proof {
            lemma_stress_fits(range as int);
        }
        let mut x: u32 = 0;
        while x < range
            invariant
                x <= range,
                range < 0x8000_0000,
                range * range * range <= usize::MAX,
                list@.len() == stress_index(range as int, x as int, 0, 0),
                stress_filled(list@, range as int, x as int, 0, 0),
            decreases range - x,
        {
            let mut z: u32 = 0;
            while z < range
                invariant
                    x < range,
                    z <= range,
                    range < 0x8000_0000,
                    range * range * range <= usize::MAX,
                    list@.len() == stress_index(range as int, x as int, 0, z as int),
                    stress_filled(list@, range as int, x as int, 0, z as int),
                decreases range - z,
            {
                let mut y: u32 = 0;
                while y < range
                    invariant
                        x < range,
                        z < range,
                        y <= range,
                        range < 0x8000_0000,
                        range * range * range <= usize::MAX,
                        list@.len() == stress_index(range as int, x as int, y as int, z as int),
                        stress_filled(list@, range as int, x as int, y as int, z as int),
                    decreases range - y,
                {
                    let chunk = Chunk {
                        position: [x as i32, y as i32, z as i32],
                        data: [Voxel { id: 2 };4096],
                    };
                    assert(chunk@.cells =~= run(2, CELLS as nat));
                    let ghost before = list@;
                    list.push(chunk);
                    proof {
                        lemma_stress_step(
                            before,
                            chunk,
                            range as int,
                            x as int,
                            y as int,
                            z as int,
                        );
                    }
                    y = y + 1;
                }
                z = z + 1;
                proof {
                    lemma_stress_carry(list@, range as int, x as int, z as int);
                }
            }
            x = x + 1;
            proof {
                lemma_stress_carry_x(list@, range as int, x as int);
            }
        }
        proof {
            assert(stress_index(range as int, range as int, 0, 0) == range * range * range)
                by (nonlinear_arith);
            assert forall|x: int, y: int, z: int|
                0 <= x < range && 0 <= y < range && 0 <= z < range implies {
                let chunk = list@[#[trigger] stress_index(range as int, x, y, z)];
                chunk@.position == (x, y, z) && chunk@.cells == run(2, CELLS as nat)
            } by {
                assert(stress_before(x, y, z, range as int, 0, 0));
            }
        }
        list
    }
}

/// Whether `(x, y, z)` comes before `(to_x, to_y, to_z)` in a stress list: x
/// counts first, then z, then y.
pub open spec fn stress_before(x: int, y: int, z: int, to_x: int, to_y: int, to_z: int) -> bool {
    x < to_x || (x == to_x && z < to_z) || (x == to_x && z == to_z && y < to_y)
}

/// Whether `list` holds, each at its place, the chunks of a stress list that
/// come before `(to_x, to_y, to_z)`.
pub open spec fn stress_filled(
    list: Seq<Chunk>,
    range: int,
    to_x: int,
    to_y: int,
    to_z: int,
) -> bool {
    forall|x: int, y: int, z: int|
        0 <= x < range && 0 <= y < range && 0 <= z < range && #[trigger] stress_before(
            x,
            y,
            z,
            to_x,
            to_y,
            to_z,
        ) ==> {
            let at = stress_index(range, x, y, z);
            &&& 0 <= at < list.len()
            &&& list[at]@.position == (x, y, z)
            &&& list[at]@.cells == run(2, CELLS as nat)
        }
}

/// A list that fits in memory has fewer than 2^31 chunks along each axis.
proof fn lemma_stress_fits(range: int)
    requires
        0 <= range,
        range * range * range <= usize::MAX,
    ensures
        range < 0x8000_0000,
{
    if range >= 0x8000_0000 {
        assert(range * range * range >= 0x8000_0000 * 0x8000_0000 * 0x8000_0000)
            by (nonlinear_arith)
            requires
                range >= 0x8000_0000,
        ;
    }
}

/// A chunk that comes earlier stands earlier in the list.
proof fn lemma_stress_order(range: int, x: int, y: int, z: int, to_x: int, to_y: int, to_z: int)
    requires
        0 <= x < range,
        0 <= y < range,
        0 <= z < range,
        0 <= to_x,
        0 <= to_y,
        0 <= to_z,
        stress_before(x, y, z, to_x, to_y, to_z),
    ensures
        0 <= stress_index(range, x, y, z) < stress_index(range, to_x, to_y, to_z),
{
    assert(0 <= (x * range + z) * range + y) by (nonlinear_arith)
        requires
            0 <= x,
            0 <= y,
            0 <= z,
            0 <= range,
    ;
    if x < to_x {
        assert((x * range + z) * range + y < (to_x * range + to_z) * range + to_y)
            by (nonlinear_arith)
            requires
                0 <= x < to_x,
                0 <= y < range,
                0 <= z < range,
                0 <= to_y,
                0 <= to_z,
        ;
    } else if z < to_z {
        assert((x * range + z) * range + y < (x * range + to_z) * range + to_y)
            by (nonlinear_arith)
            requires
                0 <= z < to_z,
                0 <= y < range,
                0 <= to_y,
        ;
    }
}

/// The list after the chunk for `(x, y, z)` is pushed.
proof fn lemma_stress_step(before: Seq<Chunk>, chunk: Chunk, range: int, x: int, y: int, z: int)
    requires
        0 <= x < range,
        0 <= y < range,
        0 <= z < range,
        before.len() == stress_index(range, x, y, z),
        stress_filled(before, range, x, y, z),
        chunk@.position == (x, y, z),
        chunk@.cells == run(2, CELLS as nat),
    ensures
        before.push(chunk).len() == stress_index(range, x, y + 1, z),
        stress_filled(before.push(chunk), range, x, y + 1, z),
{
    let after = before.push(chunk);
    assert forall|a: int, b: int, c: int|
        0 <= a < range && 0 <= b < range && 0 <= c < range && #[trigger] stress_before(
            a,
            b,
            c,
            x,
            y + 1,
            z,
        ) implies {
        let at = stress_index(range, a, b, c);
        &&& 0 <= at < after.len()
        &&& after[at]@.position == (a, b, c)
        &&& after[at]@.cells == run(2, CELLS as nat)
    } by {
        if stress_before(a, b, c, x, y, z) {
            lemma_stress_order(range, a, b, c, x, y, z);
        } else {
            assert(a == x && b == y && c == z);
        }
    }
}

/// A row that is full is the start of the next row.
proof fn lemma_stress_carry(list: Seq<Chunk>, range: int, x: int, z: int)
    requires
        list.len() == stress_index(range, x, range, z - 1),
        stress_filled(list, range, x, range, z - 1),
    ensures
        list.len() == stress_index(range, x, 0, z),
        stress_filled(list, range, x, 0, z),
{
    assert(stress_index(range, x, range, z - 1) == stress_index(range, x, 0, z))
        by (nonlinear_arith);
    assert forall|a: int, b: int, c: int|
        0 <= a < range && 0 <= b < range && 0 <= c < range && #[trigger] stress_before(
            a,
            b,
            c,
            x,
            0,
            z,
        ) implies {
        let at = stress_index(range, a, b, c);
        &&& 0 <= at < list.len()
        &&& list[at]@.position == (a, b, c)
        &&& list[at]@.cells == run(2, CELLS as nat)
    } by {
        assert(stress_before(a, b, c, x, range, z - 1));
    }
}

/// A layer that is full is the start of the next layer.
proof fn lemma_stress_carry_x(list: Seq<Chunk>, range: int, x: int)
    requires
        list.len() == stress_index(range, x - 1, 0, range),
        stress_filled(list, range, x - 1, 0, range),
    ensures
        list.len() == stress_index(range, x, 0, 0),
        stress_filled(list, range, x, 0, 0),
{
    assert(stress_index(range, x - 1, 0, range) == stress_index(range, x, 0, 0))
        by (nonlinear_arith);
    assert forall|a: int, b: int, c: int|
        0 <= a < range && 0 <= b < range && 0 <= c < range && #[trigger] stress_before(
            a,
            b,
            c,
            x,
            0,
            0,
        ) implies {
        let at = stress_index(range, a, b, c);
        &&& 0 <= at < list.len()
        &&& list[at]@.position == (a, b, c)
        &&& list[at]@.cells == run(2, CELLS as nat)
    } by {
        assert(stress_before(a, b, c, x - 1, 0, range));
    }
}

/// Air is not drawn: cells that are all air give no instance.
pub proof fn lemma_air_has_no_instances(chunk: ChunkView, n: int)
    requires
        forall|i: int| 0 <= i < n ==> chunk.cells[i] == 0,
    ensures
        instances_of(chunk, n) == Seq::<Instance>::empty(),
    decreases n,
{
    if n > 0 {
        lemma_air_has_no_instances(chunk, n - 1);
    }
}

/// A chunk with one voxel that is not air gives one instance, that of the
/// voxel.
pub proof fn lemma_one_voxel_one_instance(chunk: ChunkView, n: int, at: int)
    requires
        0 <= at < n,
        chunk.cells[at] != 0,
        forall|i: int| 0 <= i < n && i != at ==> chunk.cells[i] == 0,
    ensures
        instances_of(chunk, n) == seq![instance_at(chunk, at)],
    decreases n,
{
    if at == n - 1 {
        lemma_air_has_no_instances(chunk, n - 1);
        assert(instances_of(chunk, n) =~= seq![instance_at(chunk, at)]);
    } else {
        lemma_one_voxel_one_instance(chunk, n - 1, at);
    }
}

/// Each voxel that is not air has its instance in the list.
pub proof fn lemma_each_voxel_is_drawn(chunk: ChunkView, n: int, at: int)
    requires
        0 <= at < n,
        chunk.cells[at] != 0,
    ensures
        instances_of(chunk, n).contains(instance_at(chunk, at)),
    decreases n,
{
    let list = instances_of(chunk, n);
    if at == n - 1 {
        assert(list[list.len() - 1] == instance_at(chunk, at));
    } else {
        lemma_each_voxel_is_drawn(chunk, n - 1, at);
        let earlier = instances_of(chunk, n - 1);
        let k = choose|k: int| 0 <= k < earlier.len() && earlier[k] == instance_at(chunk, at);
        assert(list[k] == instance_at(chunk, at));
    }
}

/// Each instance in the list is that of a voxel that is not air, and there
/// are no more instances than cells.
pub proof fn lemma_each_instance_is_a_voxel(chunk: ChunkView, n: int, k: int)
    requires
        0 <= k < instances_of(chunk, n).len(),
    ensures
        instances_of(chunk, n).len() <= n,
        exists|at: int|
            0 <= at < n && chunk.cells[at] != 0 && instances_of(chunk, n)[k]
                == #[trigger] instance_at(chunk, at),
    decreases n,
{
    if n > 0 {
        let earlier = instances_of(chunk, n - 1);
        if k < earlier.len() {
            lemma_each_instance_is_a_voxel(chunk, n - 1, k);
            let at = choose|at: int|
                0 <= at < n - 1 && chunk.cells[at] != 0 && earlier[k] == #[trigger] instance_at(
                    chunk,
                    at,
                );
            assert(instances_of(chunk, n)[k] == instance_at(chunk, at));
        } else {
            lemma_instances_count(chunk, n - 1);
            assert(instances_of(chunk, n)[k] == instance_at(chunk, n - 1));
        }
        lemma_instances_count(chunk, n);
    }
}

/// There are no more instances than cells.
pub proof fn lemma_instances_count(chunk: ChunkView, n: int)
    requires
        0 <= n,
    ensures
        instances_of(chunk, n).len() <= n,
    decreases n,
{
    if n > 0 {
        lemma_instances_count(chunk, n - 1);
    }
}

} // verus!
