use std::path::PathBuf;

use overseer_voxel::world::chunk::{Chunk, Notes, Voxel};
use overseer_voxel::world::{Definition, LoadError, World};

const THREE: &str = "^(0,0,0):\r\n1,0*4095,^\r\n^(1,0,0):\r\n2*2,0*4094,^\r\n^(0,1,0):\r\n3*4096,^\r\n";

fn world_of(text: &str) -> World {
    let mut world = World::new();
    world.load_wrld(PathBuf::from("test.wrld"), text.as_bytes());
    world
}

#[test]
fn a_new_world_is_empty() {
    let world = World::new();
    assert!(world.chunks().is_empty());
    assert!(world.definitions().is_empty());
    assert_eq!(world.wrld_file(), None);
    assert_eq!(world.wdfn_file(), None);
    assert_eq!(world.offset_of([0, 0, 0]), None);
}

#[test]
fn a_definition_has_a_name_and_a_color() {
    let grass = Definition::new(String::from("grass"), [5, 140, 0, 255]).unwrap();
    assert_eq!(grass.name(), "grass");
    assert_eq!(grass.color(), [5, 140, 0, 255]);
}

#[test]
fn a_definition_needs_a_name() {
    assert!(Definition::new(String::new(), [0, 0, 0, 0]).is_none());
    assert!(Definition::new(String::from(" "), [0, 0, 0, 0]).is_some());
}

#[test]
fn load_wdfn_keeps_the_path() {
    let mut world = world_of(THREE);
    world.load_chunk([0, 0, 0], THREE.as_bytes()).unwrap();
    world.load_wdfn(PathBuf::from("kinds.wdfn"));
    assert_eq!(world.wdfn_file(), Some(&PathBuf::from("kinds.wdfn")));
    assert_eq!(world.wrld_file(), Some(&PathBuf::from("test.wrld")));
    assert!(world.definitions().is_empty());
    assert_eq!(world.chunks().len(), 1);
    assert_eq!(world.offset_of([1, 0, 0]), Some(32));
    world.load_wdfn(PathBuf::from("other.wdfn"));
    assert_eq!(world.wdfn_file(), Some(&PathBuf::from("other.wdfn")));
}

#[test]
fn load_wrld_keeps_the_path() {
    let mut world = world_of("");
    assert_eq!(world.wrld_file(), Some(&PathBuf::from("test.wrld")));
    assert_eq!(world.wdfn_file(), None);
    world.load_wrld(PathBuf::from("next.wrld"), b"");
    assert_eq!(world.wrld_file(), Some(&PathBuf::from("next.wrld")));
}

#[test]
fn load_wrld_finds_the_offsets_of_three_chunks() {
    let world = world_of(THREE);
    let first = world.offset_of([0, 0, 0]);
    let second = world.offset_of([1, 0, 0]);
    let third = world.offset_of([0, 1, 0]);
    assert_eq!(first, Some(9));
    assert_eq!(second, Some(32));
    assert_eq!(third, Some(57));
    assert_ne!(first, second);
    assert_ne!(second, third);
    assert_ne!(first, third);
    assert_eq!(world.offset_of([9, 9, 9]), None);
    assert!(world.chunks().is_empty());
}

#[test]
fn a_chunk_that_the_index_lacks_is_not_found() {
    let mut world = world_of(THREE);
    assert_eq!(world.load_chunk([9, 9, 9], THREE.as_bytes()), Err(LoadError::NotFound));
    assert_eq!(world.load_chunk([-1, 0, 0], THREE.as_bytes()), Err(LoadError::NotFound));
    assert_eq!(world.load_chunk([0, 0, 1], THREE.as_bytes()), Err(LoadError::NotFound));
    assert!(world.chunks().is_empty());
    assert_eq!(world.offset_of([-1, 0, 0]), None);
}

#[test]
fn a_world_without_a_file_finds_no_chunk() {
    let mut world = World::new();
    assert_eq!(world.load_chunk([0, 0, 0], THREE.as_bytes()), Err(LoadError::NotFound));
    assert!(world.chunks().is_empty());
}

#[test]
fn load_chunk_reads_the_chunk_at_its_offset() {
    let mut world = world_of(THREE);
    assert_eq!(
        world.load_chunk([1, 0, 0], THREE.as_bytes()),
        Ok(Notes { recovered: 0, overflow: false })
    );
    assert_eq!(world.chunks().len(), 1);
    let chunk = world.chunks()[0];
    assert_eq!(chunk.position(), [1, 0, 0]);
    assert_eq!(chunk.voxel(0, 0, 0).id, 2);
    assert_eq!(chunk.voxel(0, 0, 1).id, 2);
    assert_eq!(chunk.voxel(0, 0, 2).id, 0);
    let mut expected = Chunk::new([1, 0, 0]);
    expected.set_voxel(0, 0, 0, Voxel { id: 2 });
    expected.set_voxel(0, 0, 1, Voxel { id: 2 });
    assert_eq!(chunk, expected);
}

#[test]
fn chunks_are_kept_in_the_order_of_loading() {
    let mut world = world_of(THREE);
    world.load_chunk([0, 1, 0], THREE.as_bytes()).unwrap();
    world.load_chunk([0, 0, 0], THREE.as_bytes()).unwrap();
    world.load_chunk([1, 0, 0], THREE.as_bytes()).unwrap();
    let positions: Vec<[i32; 3]> = world.chunks().iter().map(|chunk| chunk.position()).collect();
    assert_eq!(positions, vec![[0, 1, 0], [0, 0, 0], [1, 0, 0]]);
    assert_eq!(world.chunks()[0].voxel(7, 7, 7).id, 3);
    assert_eq!(world.chunks()[1].voxel(0, 0, 0).id, 1);
}

#[test]
fn a_chunk_that_is_loaded_twice_is_there_twice() {
    let mut world = world_of(THREE);
    world.load_chunk([0, 0, 0], THREE.as_bytes()).unwrap();
    world.load_chunk([0, 0, 0], THREE.as_bytes()).unwrap();
    assert_eq!(world.chunks().len(), 2);
    assert_eq!(world.chunks()[0], world.chunks()[1]);
}

#[test]
fn a_body_that_is_none_loads_no_chunk() {
    let text = "^(0,0,0):\r\n1,x,2,^\r\n^(1,0,0):\r\n1,2,\r\n";
    let mut world = world_of(text);
    assert_eq!(world.offset_of([0, 0, 0]), Some(9));
    assert_eq!(world.load_chunk([0, 0, 0], text.as_bytes()), Err(LoadError::Malformed));
    assert_eq!(world.load_chunk([1, 0, 0], text.as_bytes()), Err(LoadError::Malformed));
    assert!(world.chunks().is_empty());
}

#[test]
fn a_file_that_became_shorter_loads_no_chunk() {
    let mut world = world_of(THREE);
    assert_eq!(world.load_chunk([0, 1, 0], b"^(0,0,0):\r\n1,^"), Err(LoadError::Malformed));
    assert!(world.chunks().is_empty());
}

#[test]
fn the_body_is_read_from_the_file_that_is_handed_over() {
    let mut world = world_of("^(4,4,4):\r\n1,^\r\n");
    world.load_chunk([4, 4, 4], b"^(4,4,4):\r\n7*3,^\r\n").unwrap();
    assert_eq!(world.chunks()[0].voxel(0, 0, 2).id, 7);
}

#[test]
fn a_later_header_replaces_an_earlier_one() {
    let text = "^(2,2,2):\r\n1,^\r\n^(2,2,2):\r\n5,^\r\n";
    let mut world = world_of(text);
    assert_eq!(world.offset_of([2, 2, 2]), Some(25));
    world.load_chunk([2, 2, 2], text.as_bytes()).unwrap();
    assert_eq!(world.chunks()[0].voxel(0, 0, 0).id, 5);
}

#[test]
fn a_second_world_file_adds_to_the_index() {
    let mut world = world_of("^(1,0,0):^(2,0,0):");
    world.load_wrld(PathBuf::from("more.wrld"), b"....^(2,0,0):^(3,0,0):");
    assert_eq!(world.offset_of([1, 0, 0]), Some(9));
    assert_eq!(world.offset_of([2, 0, 0]), Some(13));
    assert_eq!(world.offset_of([3, 0, 0]), Some(22));
    assert_eq!(world.wrld_file(), Some(&PathBuf::from("more.wrld")));
}

#[test]
fn load_wrld_leaves_the_loaded_chunks() {
    let mut world = world_of(THREE);
    world.load_chunk([0, 0, 0], THREE.as_bytes()).unwrap();
    world.load_wrld(PathBuf::from("empty.wrld"), b"");
    assert_eq!(world.chunks().len(), 1);
    assert_eq!(world.offset_of([0, 0, 0]), Some(9));
}

#[test]
fn unload_chunk_drops_the_chunk_at_the_index() {
    let mut world = world_of(THREE);
    world.load_chunk([0, 0, 0], THREE.as_bytes()).unwrap();
    world.load_chunk([1, 0, 0], THREE.as_bytes()).unwrap();
    world.load_chunk([0, 1, 0], THREE.as_bytes()).unwrap();
    world.unload_chunk(1);
    let positions: Vec<[i32; 3]> = world.chunks().iter().map(|chunk| chunk.position()).collect();
    assert_eq!(positions, vec![[0, 0, 0], [0, 1, 0]]);
    world.unload_chunk(1);
    world.unload_chunk(0);
    assert!(world.chunks().is_empty());
    assert_eq!(world.offset_of([1, 0, 0]), Some(32));
}

#[test]
fn a_world_that_is_written_loads_back() {
    let mut chunks = Vec::new();
    for (n, position) in [[0, 0, 0], [1, 0, 0], [0, 1, 0], [12, 345, 6789]].iter().enumerate() {
        let mut chunk = Chunk::new(*position);
        for i in 0..4096usize {
            let id = ((i / (n + 3)) % 4) as u16 * (n as u16 + 1);
            chunk.set_voxel(i / 16 % 16, i / 256, i % 16, Voxel { id });
        }
        chunks.push(chunk);
    }
    let mut text = String::new();
    for chunk in &chunks {
        text.push_str(&chunk.write());
    }
    let mut world = world_of(&text);
    for chunk in &chunks {
        assert_eq!(
            world.load_chunk(chunk.position(), text.as_bytes()),
            Ok(Notes { recovered: 0, overflow: false })
        );
    }
    assert_eq!(world.chunks(), &chunks);
}

#[test]
fn the_instances_of_the_loaded_chunks() {
    let mut world = world_of(THREE);
    world.load_chunk([0, 0, 0], THREE.as_bytes()).unwrap();
    world.load_chunk([1, 0, 0], THREE.as_bytes()).unwrap();
    let mut list = Vec::new();
    for chunk in world.chunks() {
        chunk.instances(&mut list);
    }
    let places: Vec<(i64, i64, i64)> = list.iter().map(|i| (i.x, i.y, i.z)).collect();
    assert_eq!(places, vec![(0, 0, 0), (16, 0, 0), (16, 0, 1)]);
}

#[test]
fn load_chunk_tells_what_was_set_right() {
    let text = "^(0,0,0):\r\n1,,*2,3,^\r\n^(1,0,0):\r\n5*4096,6,^\r\n";
    let mut world = world_of(text);
    assert_eq!(
        world.load_chunk([0, 0, 0], text.as_bytes()),
        Ok(Notes { recovered: 3, overflow: false })
    );
    assert_eq!(
        world.load_chunk([1, 0, 0], text.as_bytes()),
        Ok(Notes { recovered: 0, overflow: true })
    );
    assert_eq!(world.chunks().len(), 2);
    assert_eq!(world.chunks()[0].voxel(0, 0, 4).id, 3);
    assert_eq!(world.chunks()[1].voxel(15, 15, 15).id, 5);
}
