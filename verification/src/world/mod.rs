//! The world: the kinds of voxel it knows, the index of its world file, and
//! the chunks that are loaded.
//!
//! The world reads no file itself. Its caller reads the world file and hands
//! over the bytes; the world keeps the path for that caller.

pub mod chunk;
pub mod codec;
pub mod decimal;
pub mod index;
pub mod roundtrip;
pub mod storage;

use vstd::prelude::*;
use std::collections::HashMap;
use std::path::PathBuf;
use self::chunk::{coord, Chunk, ChunkView, Coord, Notes};
use self::codec::decode;
use self::index::{addressable_part, index_of, pack_position, scan_headers, unpacked};

verus! {

/// `std::path::PathBuf`, the path of a file. The world keeps such a path and
/// hands it back; nothing is claimed of what it holds.
#[verifier::external_type_specification]
#[verifier::external_body]
pub struct ExPathBuf(PathBuf);

/// A kind of voxel: its name and its color, as red, green, blue and alpha.
#[derive(Debug)]
pub struct Definition {
    name: String,
    color: [u8; 4],
}

/// A kind of voxel as a value.
pub struct DefinitionView {
    pub name: Seq<char>,
    pub color: Seq<u8>,
}

impl View for Definition {
    type V = DefinitionView;

    closed spec fn view(&self) -> DefinitionView {
        DefinitionView { name: self.name@, color: self.color@ }
    }
}

impl Definition {
    #[verifier::type_invariant]
    spec fn named(self) -> bool {
        self.name@.len() > 0
    }

    /// A kind of voxel with this name and color. A kind needs a name: there
    /// is none for the empty name.
    pub fn new(name: String, color: [u8; 4]) -> (r: Option<Definition>)
        ensures
            name@.len() == 0 ==> r is None,
            name@.len() > 0 ==> (r matches Some(definition) && definition@.name == name@
                && definition@.color == color@),
    {
        if name.as_str().is_empty() {
            None
        } else {
            Some(Definition { name, color })
        }
    }

    /// The name, which is not empty.
    pub fn name(&self) -> (name: &str)
        ensures
            name@ == self@.name,
            name@.len() > 0,
    {
        proof {
            use_type_invariant(self);
        }
        self.name.as_str()
    }

    /// The color: red, green, blue and alpha.
    pub fn color(&self) -> (color: [u8; 4])
        ensures
            color@ == self@.color,
    {
        self.color
    }
}

/// Why a chunk was not loaded.
#[derive(Clone, Copy, Debug, PartialEq, Eq)]
pub enum LoadError {
    /// The index has no chunk at the position.
    NotFound,
    /// The text at the chunk's place in the file is no body of a chunk.
    Malformed,
}

#[derive(Debug)]
pub struct World {
    wdfn_file: Option<PathBuf>,
    wrld_file: Option<PathBuf>,
    definitions: Vec<Definition>,
    map: HashMap<u128, u64>,
    chunks: Vec<Chunk>,
}

/// A world as a value.
pub struct WorldView {
    /// The file of definitions, once one was loaded.
    pub wdfn_file: Option<PathBuf>,
    /// The world file, once one was loaded.
    pub wrld_file: Option<PathBuf>,
    /// The kinds of voxel; the id of a voxel counts into this list.
    pub definitions: Seq<Definition>,
    /// Where in the world file the body of the chunk at a position starts.
    pub index: Map<Coord, int>,
    /// The chunks that are loaded, in the order in which they were.
    pub chunks: Seq<ChunkView>,
}

impl View for World {
    type V = WorldView;

    closed spec fn view(&self) -> WorldView {
        WorldView {
            wdfn_file: self.wdfn_file,
            wrld_file: self.wrld_file,
            definitions: self.definitions@,
            index: unpacked(self.map@),
            chunks: self.chunks@.map_values(|chunk: Chunk| chunk@),
        }
    }
}

impl World {
    /// A world without files, definitions, index or chunks.
    pub fn new() -> (world: World)
        ensures
            world@.wdfn_file is None,
            world@.wrld_file is None,
            world@.definitions == Seq::<Definition>::empty(),
            world@.index == Map::<Coord, int>::empty(),
            world@.chunks == Seq::<ChunkView>::empty(),
    {
        let world = World {
            wdfn_file: None,
            wrld_file: None,
            definitions: Vec::new(),
            map: HashMap::new(),
            chunks: Vec::new(),
        };
        assert(world@.index =~= Map::<Coord, int>::empty());
        assert(world@.chunks =~= Seq::<ChunkView>::empty());
        world
    }

    /// Takes `path` as the file of definitions. The definitions themselves
    /// stay as they are.
    pub fn load_wdfn(&mut self, path: PathBuf)
        ensures
            final(self)@ == (WorldView { wdfn_file: Some(path), ..old(self)@ }),
    {
        self.wdfn_file = Some(path);
    }

    /// Takes `path` as the world file and `content`, the bytes of that file,
    /// into the index: each header of `content` that names a position a chunk
    /// can have is entered, in place of an entry for the same position.
    pub fn load_wrld(&mut self, path: PathBuf, content: &[u8])
        ensures
            final(self)@ == (WorldView {
                wrld_file: Some(path),
                index: old(self)@.index.union_prefer_right(addressable_part(index_of(content@))),
                ..old(self)@
            }),
    {
        scan_headers(content, &mut self.map);
        self.wrld_file = Some(path);
    }

    /// Where in the world file the body of the chunk at `position` starts, if
    /// the index knows the chunk.
    pub fn offset_of(&self, position: [i32; 3]) -> (offset: Option<u64>)
        ensures
            offset matches Some(at) ==> self@.index.contains_key(coord(position))
                && self@.index[coord(position)] == at,
            offset is None ==> !self@.index.contains_key(coord(position)),
    {
        match pack_position(position) {
            Some(key) => match self.map.get(&key) {
                Some(at) => Some(*at),
                None => None,
            },
            None => None,
        }
    }

    /// Loads the chunk at `position` from `file`, the bytes of the world file,
    /// and adds it to the loaded chunks, behind those that are there. A chunk
    /// that is loaded already is loaded once more. The result tells what was
    /// set right while the chunk was read.
    ///
    /// Nothing changes where the index has no chunk at `position`, or the
    /// text at its offset is no body of a chunk.
    pub fn load_chunk(&mut self, position: [i32; 3], file: &[u8]) -> (r: Result<Notes, LoadError>)
        ensures
            !old(self)@.index.contains_key(coord(position)) ==> r == Err::<Notes, LoadError>(
                LoadError::NotFound,
            ) && final(self)@ == old(self)@,
            old(self)@.index.contains_key(coord(position)) ==> match decode(
                file@,
                old(self)@.index[coord(position)],
            ) {
                Some(outcome) => r matches Ok(notes) && notes.recovered == outcome.recovered
                    && notes.overflow == outcome.overflow && final(self)@ == (WorldView {
                    chunks: old(self)@.chunks.push(
                        ChunkView { position: coord(position), cells: outcome.cells },
                    ),
                    ..old(self)@
                }),
                None => r == Err::<Notes, LoadError>(LoadError::Malformed) && final(self)@ == old(
                    self,
                )@,
            },
    {
        match self.offset_of(position) {
            Some(at) => match Chunk::read(file, position, at) {
                Some(reading) => {
                    self.chunks.push(reading.chunk);
                    assert(self@.chunks =~= old(self)@.chunks.push(reading.chunk@));
                    Ok(reading.notes)
                },
                None => Err(LoadError::Malformed),
            },
            None => Err(LoadError::NotFound),
        }
    }

    /// Drops the loaded chunk that stands at `index` in the list of loaded
    /// chunks.
    pub fn unload_chunk(&mut self, index: usize)
        requires
            index < old(self)@.chunks.len(),
        ensures
            final(self)@ == (WorldView {
                chunks: old(self)@.chunks.remove(index as int),
                ..old(self)@
            }),
    {
        self.chunks.remove(index);
        assert(self@.chunks =~= old(self)@.chunks.remove(index as int));
    }

    /// The file of definitions, once one was loaded.
    pub fn wdfn_file(&self) -> (path: Option<&PathBuf>)
        ensures
            match path {
                Some(path) => self@.wdfn_file == Some(*path),
                None => self@.wdfn_file is None,
            },
    {
        self.wdfn_file.as_ref()
    }

    /// The world file, once one was loaded.
    pub fn wrld_file(&self) -> (path: Option<&PathBuf>)
        ensures
            match path {
                Some(path) => self@.wrld_file == Some(*path),
                None => self@.wrld_file is None,
            },
    {
        self.wrld_file.as_ref()
    }

    /// The kinds of voxel that the world knows.
    pub fn definitions(&self) -> (definitions: &Vec<Definition>)
        ensures
            definitions@ == self@.definitions,
    {
        &self.definitions
    }

    /// The chunks that are loaded.
    pub fn chunks(&self) -> (chunks: &Vec<Chunk>)
        ensures
            chunks@.map_values(|chunk: Chunk| chunk@) == self@.chunks,
    {
        &self.chunks
    }
}

} // verus!
