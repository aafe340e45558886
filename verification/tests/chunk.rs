use overseer_voxel::world::chunk::{Chunk, Notes, Voxel, SIDE};

fn cell_of(chunk: &Chunk, i: usize) -> u16 {
    chunk.voxel(i / 16 % 16, i / 256, i % 16).id
}

fn cells_of(chunk: &Chunk) -> Vec<u16> {
    (0..4096).map(|i| cell_of(chunk, i)).collect()
}

fn decoded(body: &str) -> Option<Chunk> {
    Chunk::from(body.as_bytes(), [0, 0, 0], 0)
}

fn expected(runs: &[(u16, usize)]) -> Vec<u16> {
    let mut cells = Vec::new();
    for &(id, count) in runs {
        for _ in 0..count {
            cells.push(id);
        }
    }
    cells.resize(4096, 0);
    cells
}

#[test]
fn a_chunk_has_16_voxels_along_each_edge() {
    assert_eq!(SIDE, 16);
}

#[test]
fn a_new_chunk_is_air() {
    let chunk = Chunk::new([3, -4, 5]);
    assert_eq!(chunk.position(), [3, -4, 5]);
    assert!(cells_of(&chunk).iter().all(|&id| id == 0));
}

#[test]
fn set_voxel_changes_one_cell() {
    let mut chunk = Chunk::new([0, 0, 0]);
    chunk.set_voxel(1, 2, 3, Voxel { id: 9 });
    assert_eq!(chunk.voxel(1, 2, 3), Voxel { id: 9 });
    let cells = cells_of(&chunk);
    for (i, &id) in cells.iter().enumerate() {
        assert_eq!(id, if i == (2 * 16 + 1) * 16 + 3 { 9 } else { 0 });
    }
    assert_eq!(chunk.position(), [0, 0, 0]);
}

#[test]
fn the_cells_run_through_z_then_x_then_y() {
    let chunk = decoded("1,2*15,3*240,4,^").unwrap();
    assert_eq!(chunk.voxel(0, 0, 0).id, 1);
    assert_eq!(chunk.voxel(0, 0, 1).id, 2);
    assert_eq!(chunk.voxel(0, 0, 15).id, 2);
    assert_eq!(chunk.voxel(1, 0, 0).id, 3);
    assert_eq!(chunk.voxel(15, 0, 15).id, 3);
    assert_eq!(chunk.voxel(0, 1, 0).id, 4);
    assert_eq!(chunk.voxel(0, 1, 1).id, 0);
}

#[test]
fn from_reads_single_voxels_and_runs() {
    let chunk = decoded("1,2*3,0,65535*2,^").unwrap();
    assert_eq!(cells_of(&chunk), expected(&[(1, 1), (2, 3), (0, 1), (65535, 2)]));
}

#[test]
fn from_places_the_chunk() {
    let chunk = Chunk::from(b"1,^", [7, -8, 9], 0).unwrap();
    assert_eq!(chunk.position(), [7, -8, 9]);
    assert_eq!(cell_of(&chunk, 0), 1);
}

#[test]
fn from_stops_at_the_caret() {
    let chunk = decoded("1,2,^3,4,^").unwrap();
    assert_eq!(cells_of(&chunk), expected(&[(1, 1), (2, 1)]));
    let empty = decoded("^").unwrap();
    assert_eq!(cells_of(&empty), expected(&[]));
}

#[test]
fn from_drops_a_token_that_no_comma_closes() {
    let chunk = decoded("1,2^").unwrap();
    assert_eq!(cells_of(&chunk), expected(&[(1, 1)]));
}

#[test]
fn from_passes_over_line_breaks_and_tabs() {
    let chunk = decoded("\r\n1,\t2*\n3,\r4\r\n5,\n^\r\n").unwrap();
    assert_eq!(cells_of(&chunk), expected(&[(1, 1), (2, 3), (45, 1)]));
}

#[test]
fn from_starts_at_the_location() {
    let file = b"^(0,0,0):\r\n5*2,^\r\n^(1,0,0):\r\n6*3,^\r\n";
    let first = Chunk::from(file, [0, 0, 0], 9).unwrap();
    assert_eq!(cells_of(&first), expected(&[(5, 2)]));
    let second = Chunk::from(file, [1, 0, 0], 27).unwrap();
    assert_eq!(cells_of(&second), expected(&[(6, 3)]));
}

#[test]
fn from_finds_no_chunk_behind_the_end() {
    let file = b"1,^";
    assert!(Chunk::from(file, [0, 0, 0], 3).is_none());
    assert!(Chunk::from(file, [0, 0, 0], 4).is_none());
    assert!(Chunk::from(file, [0, 0, 0], u64::MAX).is_none());
    assert!(Chunk::from(b"", [0, 0, 0], 0).is_none());
}

#[test]
fn from_finds_no_chunk_where_the_text_ends_early() {
    assert!(decoded("1,2,").is_none());
    assert!(decoded("1,2").is_none());
    assert!(decoded("\r\n").is_none());
}

#[test]
fn from_finds_no_chunk_where_an_unknown_byte_stands() {
    assert!(decoded("1,x,2,^").is_none());
    assert!(decoded("1, 2,^").is_none());
    assert!(decoded("1,-2,^").is_none());
    assert!(decoded("1,2;^").is_none());
    assert!(decoded("(1,2,^").is_none());
    assert!(Chunk::from(&[b'1', b',', 0xc3, 0xa9, b'^'], [0, 0, 0], 0).is_none());
}

#[test]
fn an_unknown_byte_behind_the_caret_is_not_read() {
    let chunk = decoded("1,^x").unwrap();
    assert_eq!(cells_of(&chunk), expected(&[(1, 1)]));
}

#[test]
fn a_token_that_is_no_id_becomes_air() {
    let chunk = decoded("1,,2,^").unwrap();
    assert_eq!(cell_of(&chunk, 0), 1);
    assert_eq!(cell_of(&chunk, 1), 0);
    assert_eq!(cell_of(&chunk, 2), 2);
    assert_eq!(cells_of(&chunk), expected(&[(1, 1), (0, 1), (2, 1)]));
}

#[test]
fn an_id_that_does_not_fit_becomes_air() {
    let chunk = decoded("1,65536,2,70000*2,3,^").unwrap();
    assert_eq!(cells_of(&chunk), expected(&[(1, 1), (0, 1), (2, 1), (0, 2), (3, 1)]));
}

#[test]
fn a_run_of_a_token_that_is_no_id_is_a_run_of_air() {
    let chunk = decoded("1,*3,2,^").unwrap();
    assert_eq!(cells_of(&chunk), expected(&[(1, 1), (0, 3), (2, 1)]));
}

#[test]
fn a_count_that_is_no_number_fills_one_cell() {
    let chunk = decoded("1*,2**5,3*99999999999999999999,4,^").unwrap();
    assert_eq!(cells_of(&chunk), expected(&[(1, 1), (2, 1), (3, 1), (4, 1)]));
}

#[test]
fn a_count_of_zero_fills_nothing() {
    let chunk = decoded("1*0,2,^").unwrap();
    assert_eq!(cells_of(&chunk), expected(&[(2, 1)]));
}

#[test]
fn a_run_crosses_the_rows_and_layers() {
    let chunk = decoded("0*10,7*20,0*220,8*12,^").unwrap();
    assert_eq!(chunk.voxel(0, 0, 9).id, 0);
    assert_eq!(chunk.voxel(0, 0, 10).id, 7);
    assert_eq!(chunk.voxel(0, 0, 15).id, 7);
    assert_eq!(chunk.voxel(1, 0, 0).id, 7);
    assert_eq!(chunk.voxel(1, 0, 13).id, 7);
    assert_eq!(chunk.voxel(1, 0, 14).id, 0);
    assert_eq!(chunk.voxel(15, 0, 9).id, 0);
    assert_eq!(chunk.voxel(15, 0, 10).id, 8);
    assert_eq!(chunk.voxel(15, 0, 15).id, 8);
    assert_eq!(chunk.voxel(0, 1, 0).id, 8);
    assert_eq!(chunk.voxel(0, 1, 5).id, 8);
    assert_eq!(chunk.voxel(0, 1, 6).id, 0);
}

#[test]
fn a_full_chunk_is_read() {
    let chunk = decoded("3*4096,^").unwrap();
    assert!(cells_of(&chunk).iter().all(|&id| id == 3));
}

#[test]
fn a_full_chunk_is_read_on_to_the_caret() {
    let full = expected(&[(1, 4095), (2, 1)]);
    assert_eq!(cells_of(&decoded("1*4095,2,^").unwrap()), full);
    assert_eq!(cells_of(&decoded("1*4095,2,\r\n7*0,*0,^").unwrap()), full);
    assert!(decoded("1*4095,2,").is_none());
    assert!(decoded("1*4095,2,x^").is_none());
    assert!(decoded("1*4095,2,3").is_none());
}

#[test]
fn reading_ends_at_a_voxel_that_has_no_room() {
    let full = expected(&[(1, 4095), (2, 1)]);
    assert_eq!(cells_of(&decoded("1*4095,2,3,4,^").unwrap()), full);
    assert_eq!(cells_of(&decoded("1*4095,2,3,").unwrap()), full);
    assert_eq!(cells_of(&decoded("1*4095,2,3,x").unwrap()), full);
    assert_eq!(cells_of(&decoded("1*4095,2,,").unwrap()), full);
    assert_eq!(cells_of(&decoded("1*4095,2*100,x").unwrap()), full);
}

#[test]
fn a_run_is_cut_off_at_the_end_of_the_chunk() {
    let chunk = decoded("5*5000,6,^").unwrap();
    assert!(cells_of(&chunk).iter().all(|&id| id == 5));
    let huge = decoded("9,4*18446744073709551615,^").unwrap();
    assert_eq!(cells_of(&huge), expected(&[(9, 1), (4, 4095)]));
}

#[test]
fn write_gives_the_text_of_a_chunk_of_air() {
    assert_eq!(Chunk::new([0, 0, 0]).write(), "^(0,0,0):\r\n0*4096,^\r\n");
}

#[test]
fn write_names_the_position() {
    assert_eq!(Chunk::new([12, 0, 345]).write(), "^(12,0,345):\r\n0*4096,^\r\n");
    assert_eq!(Chunk::new([-1, 2, -30]).write(), "^(-1,2,-30):\r\n0*4096,^\r\n");
    assert_eq!(
        Chunk::new([i32::MIN, i32::MAX, 0]).write(),
        "^(-2147483648,2147483647,0):\r\n0*4096,^\r\n"
    );
}

#[test]
fn write_gives_one_token_for_each_run() {
    let mut chunk = Chunk::new([1, 0, 0]);
    chunk.set_voxel(0, 0, 0, Voxel { id: 1 });
    assert_eq!(chunk.write(), "^(1,0,0):\r\n1,0*4095,^\r\n");
    chunk.set_voxel(0, 0, 1, Voxel { id: 1 });
    chunk.set_voxel(0, 0, 3, Voxel { id: 65535 });
    chunk.set_voxel(15, 15, 15, Voxel { id: 2 });
    assert_eq!(chunk.write(), "^(1,0,0):\r\n1*2,0,65535,0*4091,2,^\r\n");
}

#[test]
fn write_lets_a_run_cross_the_rows_and_layers() {
    let chunk = decoded("0*10,7*20,0*220,8*12,^").unwrap();
    assert_eq!(chunk.write(), "^(0,0,0):\r\n0*10,7*20,0*220,8*12,0*3834,^\r\n");
}

#[test]
fn write_joins_tokens_of_one_id() {
    let chunk = decoded("4,4,4*2,5,5*0,5,^").unwrap();
    assert_eq!(chunk.write(), "^(0,0,0):\r\n4*4,5*2,0*4090,^\r\n");
}

#[test]
fn write_of_a_chunk_without_runs() {
    let mut chunk = Chunk::new([0, 0, 0]);
    let mut body = String::new();
    for i in 0..4096usize {
        let id = (i % 2) as u16 + 1;
        chunk.set_voxel(i / 16 % 16, i / 256, i % 16, Voxel { id });
        body.push_str(if id == 1 { "1," } else { "2," });
    }
    assert_eq!(chunk.write(), format!("^(0,0,0):\r\n{}^\r\n", body));
}

#[test]
fn a_written_chunk_reads_back() {
    let mut chunk = Chunk::new([5, -6, 7]);
    for i in 0..4096usize {
        let id = ((i * i + 3 * i) / 7 % 5) as u16 * 13107;
        chunk.set_voxel(i / 16 % 16, i / 256, i % 16, Voxel { id });
    }
    let text = chunk.write();
    let header = "^(5,-6,7):".len() as u64;
    let back = Chunk::from(text.as_bytes(), [5, -6, 7], header).unwrap();
    assert_eq!(back, chunk);
    assert_eq!(back.write(), text);
}

#[test]
fn written_chunks_of_every_id_read_back() {
    for base in [0u16, 1, 255, 256, 4096, 65535 - 4095] {
        let mut chunk = Chunk::new([0, 0, 0]);
        for i in 0..4096usize {
            let id = base + i as u16;
            chunk.set_voxel(i / 16 % 16, i / 256, i % 16, Voxel { id });
        }
        let text = chunk.write();
        let back = Chunk::from(text.as_bytes(), [0, 0, 0], 9).unwrap();
        assert_eq!(back, chunk);
    }
}

#[test]
fn a_written_chunk_of_air_and_a_full_chunk_read_back() {
    let air = Chunk::new([0, 0, 0]);
    assert_eq!(Chunk::from(air.write().as_bytes(), [0, 0, 0], 9), Some(air));
    let full = Chunk::stress(1)[0];
    assert_eq!(Chunk::from(full.write().as_bytes(), [0, 0, 0], 9), Some(full));
}

#[test]
fn runs_keep_their_bounds_when_read_back() {
    let mut chunk = Chunk::new([0, 0, 0]);
    for i in 14..18usize {
        chunk.set_voxel(i / 16 % 16, i / 256, i % 16, Voxel { id: 3 });
    }
    for i in 250..260usize {
        chunk.set_voxel(i / 16 % 16, i / 256, i % 16, Voxel { id: 3 });
    }
    for i in 4090..4096usize {
        chunk.set_voxel(i / 16 % 16, i / 256, i % 16, Voxel { id: 4 });
    }
    let text = chunk.write();
    assert_eq!(text, "^(0,0,0):\r\n0*14,3*4,0*232,3*10,0*3830,4*6,^\r\n");
    let back = Chunk::from(text.as_bytes(), [0, 0, 0], 9).unwrap();
    assert_eq!(cells_of(&back), expected(&[(0, 14), (3, 4), (0, 232), (3, 10), (0, 3830), (4, 6)]));
}

#[test]
fn stress_of_nothing_is_empty() {
    assert!(Chunk::stress(0).is_empty());
}

#[test]
fn stress_gives_a_cube_of_full_chunks() {
    let list = Chunk::stress(3);
    assert_eq!(list.len(), 27);
    for x in 0..3usize {
        for y in 0..3usize {
            for z in 0..3usize {
                let chunk = &list[(x * 3 + z) * 3 + y];
                assert_eq!(chunk.position(), [x as i32, y as i32, z as i32]);
                assert!(cells_of(chunk).iter().all(|&id| id == 2));
            }
        }
    }
}

#[test]
fn stress_counts_y_first_then_z_then_x() {
    let list = Chunk::stress(2);
    let positions: Vec<[i32; 3]> = list.iter().map(|chunk| chunk.position()).collect();
    assert_eq!(
        positions,
        vec![
            [0, 0, 0],
            [0, 1, 0],
            [0, 0, 1],
            [0, 1, 1],
            [1, 0, 0],
            [1, 1, 0],
            [1, 0, 1],
            [1, 1, 1],
        ]
    );
}

fn notes_of(body: &str) -> Notes {
    Chunk::read(body.as_bytes(), [0, 0, 0], 0).unwrap().notes
}

#[test]
fn read_gives_the_chunk_that_from_gives() {
    for body in ["1,2*3,^", "^", "5*5000,^", "1,,2,^", "\r\n0*4096,^\r\n"] {
        let reading = Chunk::read(body.as_bytes(), [1, 2, 3], 0).unwrap();
        assert_eq!(Some(reading.chunk), Chunk::from(body.as_bytes(), [1, 2, 3], 0));
    }
    for body in ["", "1,2", "1,x,2,^", "1;^"] {
        assert!(Chunk::read(body.as_bytes(), [1, 2, 3], 0).is_none());
        assert!(Chunk::from(body.as_bytes(), [1, 2, 3], 0).is_none());
    }
}

#[test]
fn a_body_in_order_needs_no_notes() {
    let none = Notes { recovered: 0, overflow: false };
    assert_eq!(notes_of("^"), none);
    assert_eq!(notes_of("1,2*3,0,^"), none);
    assert_eq!(notes_of("1*,2**,3*0,^"), none);
    assert_eq!(notes_of("7*4096,^"), none);
    assert_eq!(notes_of("7*4095,8,9*0,^"), none);
}

#[test]
fn the_notes_count_the_cells_that_were_recovered() {
    assert_eq!(notes_of("1,,2,^"), Notes { recovered: 1, overflow: false });
    assert_eq!(notes_of("1,*3,65536,2,^"), Notes { recovered: 4, overflow: false });
    assert_eq!(notes_of("*0,1,^"), Notes { recovered: 0, overflow: false });
    assert_eq!(notes_of("*4096,^"), Notes { recovered: 4096, overflow: false });
    assert_eq!(notes_of("0,0*2,^"), Notes { recovered: 0, overflow: false });
}

#[test]
fn the_notes_tell_of_voxels_that_had_no_room() {
    assert_eq!(notes_of("1*4096,2,^"), Notes { recovered: 0, overflow: true });
    assert_eq!(notes_of("1*4097,^"), Notes { recovered: 0, overflow: true });
    assert_eq!(notes_of("1*4000,*100,^"), Notes { recovered: 96, overflow: true });
    assert_eq!(notes_of("1*4096,,^"), Notes { recovered: 0, overflow: true });
    assert_eq!(notes_of("*18446744073709551615,"), Notes { recovered: 4096, overflow: true });
}

#[test]
fn a_written_chunk_reads_back_without_notes() {
    let mut chunk = Chunk::stress(1)[0];
    chunk.set_voxel(3, 3, 3, Voxel { id: 0 });
    let text = chunk.write();
    let reading = Chunk::read(text.as_bytes(), [0, 0, 0], 9).unwrap();
    assert_eq!(reading.chunk, chunk);
    assert_eq!(reading.notes, Notes { recovered: 0, overflow: false });
}
