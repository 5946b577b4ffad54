use droplet_rs::planner::{plan_chunks, sort_largest_first, Slice, CHUNK_SIZE};
use droplet_rs::types::VersionFile;

const MIB: u64 = 1024 * 1024;

fn file(name: &str, size: u64) -> VersionFile {
    VersionFile { relative_filename: name.to_string(), permission: 0o644, size }
}

fn sl(file: usize, start: u64, length: u64) -> Slice {
    Slice { file, start, length }
}

#[test]
fn one_large_file_is_cut_into_full_chunks_and_a_remainder() {
    let files = vec![file("big", 200 * MIB)];
    let plan = plan_chunks(&files, false);
    assert_eq!(
        plan,
        vec![
            vec![sl(0, 0, 64 * MIB)],
            vec![sl(0, 64 * MIB, 64 * MIB)],
            vec![sl(0, 128 * MIB, 64 * MIB)],
            vec![sl(0, 192 * MIB, 8 * MIB)],
        ]
    );
}

#[test]
fn whole_file_source_keeps_a_large_file_unsplit() {
    let files = vec![file("big", 100 * MIB)];
    let plan = plan_chunks(&files, true);
    assert_eq!(plan, vec![vec![sl(0, 0, 100 * MIB)]]);
}

#[test]
fn three_files_split_at_exact_boundaries() {
    let files = vec![file("a", 50 * MIB), file("b", 50 * MIB), file("c", 20 * MIB)];
    let plan = plan_chunks(&files, false);
    assert_eq!(
        plan,
        vec![
            vec![sl(0, 0, 50 * MIB), sl(1, 0, 14 * MIB)],
            vec![sl(1, 14 * MIB, 36 * MIB), sl(2, 0, 20 * MIB)],
        ]
    );
}

#[test]
fn file_of_exactly_target_size_is_one_chunk() {
    let files = vec![file("exact", CHUNK_SIZE), file("small", 10)];
    let plan = plan_chunks(&files, false);
    assert_eq!(plan, vec![vec![sl(0, 0, CHUNK_SIZE)], vec![sl(1, 0, 10)]]);
}

#[test]
fn zero_byte_file_gets_one_empty_slice() {
    let files = vec![file("a", 10), file("empty", 0)];
    let plan = plan_chunks(&files, false);
    assert_eq!(plan, vec![vec![sl(0, 0, 10), sl(1, 0, 0)]]);
    let plan = plan_chunks(&files, true);
    assert_eq!(plan, vec![vec![sl(0, 0, 10), sl(1, 0, 0)]]);
}

#[test]
fn only_zero_byte_files() {
    let files = vec![file("x", 0), file("y", 0)];
    let plan = plan_chunks(&files, false);
    assert_eq!(plan, vec![vec![sl(0, 0, 0), sl(1, 0, 0)]]);
}

#[test]
fn empty_input_gives_empty_plan() {
    let files: Vec<VersionFile> = Vec::new();
    assert!(plan_chunks(&files, false).is_empty());
    assert!(plan_chunks(&files, true).is_empty());
}

#[test]
fn whole_file_source_groups_small_files_until_target() {
    let files = vec![
        file("huge", 70 * MIB),
        file("a", 40 * MIB),
        file("b", 30 * MIB),
        file("c", 5 * MIB),
    ];
    let plan = plan_chunks(&files, true);
    assert_eq!(
        plan,
        vec![
            vec![sl(0, 0, 70 * MIB)],
            vec![sl(1, 0, 40 * MIB), sl(2, 0, 30 * MIB)],
            vec![sl(3, 0, 5 * MIB)],
        ]
    );
}

#[test]
fn file_ending_on_a_boundary_leaves_no_empty_chunk() {
    let files = vec![file("a", 128 * MIB)];
    let plan = plan_chunks(&files, false);
    assert_eq!(plan, vec![vec![sl(0, 0, 64 * MIB)], vec![sl(0, 64 * MIB, 64 * MIB)]]);
}

#[test]
fn planning_twice_gives_the_same_plan() {
    let files = vec![file("a", 90 * MIB), file("b", 70 * MIB), file("c", 3)];
    assert_eq!(plan_chunks(&files, false), plan_chunks(&files, false));
    let renamed = vec![file("x", 90 * MIB), file("y", 70 * MIB), file("z", 3)];
    assert_eq!(plan_chunks(&files, false), plan_chunks(&renamed, false));
}

#[test]
fn slices_cover_each_file_exactly() {
    let files = vec![file("a", 130 * MIB), file("b", 64 * MIB), file("c", 1), file("d", 0)];
    let plan = plan_chunks(&files, false);
    let mut next = vec![0u64; files.len()];
    let mut seen = vec![0usize; files.len()];
    for chunk in &plan {
        assert!(!chunk.is_empty());
        for s in chunk {
            assert_eq!(s.start, next[s.file]);
            next[s.file] += s.length;
            seen[s.file] += 1;
        }
    }
    for (i, f) in files.iter().enumerate() {
        assert_eq!(next[i], f.size);
    }
    assert_eq!(seen[3], 1);
}

#[test]
fn sort_puts_largest_first_and_keeps_ties_in_order() {
    let files = vec![file("s", 1), file("l", 9), file("m1", 5), file("m2", 5)];
    let sorted = sort_largest_first(&files);
    let names: Vec<&str> = sorted.iter().map(|f| f.relative_filename.as_str()).collect();
    assert_eq!(names, vec!["l", "m1", "m2", "s"]);
}

#[test]
fn exact_size_file_after_a_boundary_is_its_own_chunk() {
    let files = vec![file("a", 128 * MIB), file("exact", CHUNK_SIZE), file("b", 1)];
    let plan = plan_chunks(&files, false);
    assert_eq!(
        plan,
        vec![
            vec![sl(0, 0, 64 * MIB)],
            vec![sl(0, 64 * MIB, 64 * MIB)],
            vec![sl(1, 0, CHUNK_SIZE)],
            vec![sl(2, 0, 1)],
        ]
    );
}

#[test]
fn exact_size_file_off_a_boundary_is_split() {
    let files = vec![file("a", 100 * MIB), file("exact", CHUNK_SIZE)];
    let plan = plan_chunks(&files, false);
    assert_eq!(
        plan,
        vec![
            vec![sl(0, 0, 64 * MIB)],
            vec![sl(0, 64 * MIB, 36 * MIB), sl(1, 0, 28 * MIB)],
            vec![sl(1, 28 * MIB, 36 * MIB)],
        ]
    );
}
