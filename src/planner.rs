use vstd::prelude::*;

use crate::types::VersionFile;

verus! {

/// Target payload size of one chunk: 64 MiB. Both kinds of source close a
/// chunk as soon as it reaches this size; no extra allowance is added.
pub const CHUNK_SIZE: u64 = 67108864;

/// A contiguous byte range `[start, start + length)` of the file at index
/// `file` of the planned file list.
#[derive(Clone, Copy, Debug, PartialEq, Eq, Structural)]
pub struct Slice {
    pub file: usize,
    pub start: u64,
    pub length: u64,
}

pub open spec fn slice_end(s: Slice) -> int {
    s.start + s.length
}

pub open spec fn piece(file: int, start: int, length: int) -> Slice {
    Slice { file: file as usize, start: start as u64, length: length as u64 }
}

pub open spec fn sizes_of(files: Seq<VersionFile>) -> Seq<u64> {
    files.map_values(|f: VersionFile| f.size)
}

/// The planner's state between two files: the closed chunks, the chunk in
/// progress and the number of bytes in it.
pub struct PlanState {
    pub chunks: Seq<Seq<Slice>>,
    pub current: Seq<Slice>,
    pub tally: nat,
}

/// Whole-file sources: a file of at least a chunk's size is a chunk of its
/// own; a smaller one joins the chunk in progress, which closes once it
/// holds at least a chunk's size.
pub open spec fn whole_file_step(st: PlanState, file: int, size: nat) -> PlanState {
    let s = piece(file, 0, size as int);
    if size >= CHUNK_SIZE {
        PlanState { chunks: st.chunks.push(seq![s]), current: st.current, tally: st.tally }
    } else if st.tally + size >= CHUNK_SIZE {
        PlanState { chunks: st.chunks.push(st.current.push(s)), current: seq![], tally: 0 }
    } else {
        PlanState { chunks: st.chunks, current: st.current.push(s), tally: st.tally + size }
    }
}

/// Range-capable sources: a file that fits joins the chunk in progress;
/// otherwise its first bytes fill that chunk, whole chunks are cut from the
/// rest, and what is left over starts the next chunk.
pub open spec fn split_step(st: PlanState, file: int, size: nat) -> PlanState {
    if st.tally + size < CHUNK_SIZE {
        PlanState {
            chunks: st.chunks,
            current: st.current.push(piece(file, 0, size as int)),
            tally: st.tally + size,
        }
    } else {
        let fill = CHUNK_SIZE - st.tally;
        let rest = size - fill;
        let full = rest / (CHUNK_SIZE as int);
        let rem = rest % (CHUNK_SIZE as int);
        PlanState {
            chunks: st.chunks.push(st.current.push(piece(file, 0, fill))) + Seq::new(
                full as nat,
                |j: int| seq![piece(file, fill + j * CHUNK_SIZE, CHUNK_SIZE as int)],
            ),
            current: if rem > 0 {
                seq![piece(file, fill + full * CHUNK_SIZE, rem)]
            } else {
                seq![]
            },
            tally: rem as nat,
        }
    }
}

pub open spec fn plan_step(st: PlanState, file: int, size: nat, whole: bool) -> PlanState {
    if whole {
        whole_file_step(st, file, size)
    } else {
        split_step(st, file, size)
    }
}

/// The state after the files of `sizes`, taken in order.
pub open spec fn plan_state(sizes: Seq<u64>, whole: bool) -> PlanState
    decreases sizes.len(),
{
    if sizes.len() == 0 {
        PlanState { chunks: seq![], current: seq![], tally: 0 }
    } else {
        plan_step(
            plan_state(sizes.drop_last(), whole),
            sizes.len() - 1,
            sizes.last() as nat,
            whole,
        )
    }
}

/// The chunk plan for files of the given sizes: the closed chunks, then the
/// chunk in progress if it holds anything.
pub open spec fn planned(sizes: Seq<u64>, whole: bool) -> Seq<Seq<Slice>> {
    let st = plan_state(sizes, whole);
    if st.current.len() > 0 {
        st.chunks.push(st.current)
    } else {
        st.chunks
    }
}

pub open spec fn chunks_view(v: Seq<Vec<Slice>>) -> Seq<Seq<Slice>> {
    v.map_values(|c: Vec<Slice>| c@)
}

/// All slices of a plan, chunk after chunk.
pub open spec fn all_slices(chunks: Seq<Seq<Slice>>) -> Seq<Slice>
    decreases chunks.len(),
{
    if chunks.len() == 0 {
        seq![]
    } else {
        all_slices(chunks.drop_last()) + chunks.last()
    }
}

/// A slice lies inside its file, and is empty only where the file is.
pub open spec fn slice_in_file(s: Slice, sizes: Seq<u64>) -> bool {
    &&& s.file < sizes.len()
    &&& slice_end(s) <= sizes[s.file as int]
    &&& (s.length > 0 || sizes[s.file as int] == 0)
}

/// `b` goes on where `a` stops: in the same file if `a` did not reach its
/// end, else at the start of the next file.
pub open spec fn follows(a: Slice, b: Slice, sizes: Seq<u64>) -> bool {
    if slice_end(a) < sizes[a.file as int] {
        b.file == a.file && b.start == slice_end(a)
    } else {
        b.file == a.file + 1 && b.start == 0
    }
}

/// The slices, read in order, walk from the start of the first file without
/// a gap or an overlap.
pub open spec fn walks(flat: Seq<Slice>, sizes: Seq<u64>) -> bool {
    &&& forall|j: int| 0 <= j < flat.len() ==> slice_in_file(#[trigger] flat[j], sizes)
    &&& flat.len() > 0 ==> flat[0].file == 0 && flat[0].start == 0
    &&& forall|j: int| 0 <= j < flat.len() - 1 ==> follows(#[trigger] flat[j], flat[j + 1], sizes)
}

/// The walk has covered exactly the first `n` files.
pub open spec fn walk_covers(flat: Seq<Slice>, sizes: Seq<u64>, n: int) -> bool {
    if n == 0 {
        flat.len() == 0
    } else {
        flat.len() > 0 && flat.last().file == n - 1 && slice_end(flat.last()) == sizes[n - 1]
    }
}

pub open spec fn files_ascending(flat: Seq<Slice>) -> bool {
    forall|j: int, k: int| 0 <= j <= k < flat.len() ==> flat[j].file <= flat[k].file
}

/// Every file's slices, in order, cut `[0, size)` into pieces with no gap or
/// overlap, and the files come one after another in the order given.
pub open spec fn partitions(flat: Seq<Slice>, sizes: Seq<u64>) -> bool {
    &&& walks(flat, sizes)
    &&& walk_covers(flat, sizes, sizes.len() as int)
    &&& files_ascending(flat)
}

/// Every slice is the whole of its file.
pub open spec fn all_whole(flat: Seq<Slice>, sizes: Seq<u64>) -> bool {
    forall|j: int|
        0 <= j < flat.len() ==> (#[trigger] flat[j]).start == 0 && flat[j].length
            == sizes[flat[j].file as int]
}

pub open spec fn chunks_nonempty(chunks: Seq<Seq<Slice>>) -> bool {
    forall|k: int| 0 <= k < chunks.len() ==> (#[trigger] chunks[k]).len() > 0
}

proof fn lemma_all_slices_push(chunks: Seq<Seq<Slice>>, c: Seq<Slice>)
    ensures
        all_slices(chunks.push(c)) == all_slices(chunks) + c,
{
    assert(chunks.push(c).drop_last() =~= chunks);
}

proof fn lemma_walk_push(flat: Seq<Slice>, sizes: Seq<u64>, s: Slice)
    requires
        walks(flat, sizes),
        files_ascending(flat),
        slice_in_file(s, sizes),
        flat.len() == 0 ==> s.file == 0 && s.start == 0,
        flat.len() > 0 ==> follows(flat.last(), s, sizes),
    ensures
        walks(flat.push(s), sizes),
        files_ascending(flat.push(s)),
{
    let f = flat.push(s);
    assert forall|j: int| 0 <= j < f.len() - 1 implies follows(#[trigger] f[j], f[j + 1], sizes) by {
        if j < flat.len() - 1 {
            assert(f[j] == flat[j] && f[j + 1] == flat[j + 1]);
        } else {
            assert(f[j] == flat.last());
        }
    }
    assert forall|j: int, k: int| 0 <= j <= k < f.len() implies f[j].file <= f[k].file by {
        if k == f.len() - 1 && flat.len() > 0 {
            assert(flat[j].file <= flat[flat.len() - 1].file || j == k);
        }
    }
}


pub open spec fn sizes_descending(sizes: Seq<u64>) -> bool {
    forall|j: int, k: int| 0 <= j <= k < sizes.len() ==> sizes[j] >= sizes[k]
}

/// What the planner keeps true from one slice to the next.
#[verifier::opaque]
pub open spec fn plan_inv(
    chunks: Seq<Seq<Slice>>,
    current: Seq<Slice>,
    sizes: Seq<u64>,
    whole: bool,
) -> bool {
    let flat = all_slices(chunks) + current;
    &&& walks(flat, sizes)
    &&& files_ascending(flat)
    &&& chunks_nonempty(chunks)
    &&& whole ==> all_whole(flat, sizes)
}

proof fn lemma_extend(
    chunks: Seq<Seq<Slice>>,
    current: Seq<Slice>,
    s: Slice,
    sizes: Seq<u64>,
    whole: bool,
)
    requires
        plan_inv(chunks, current, sizes, whole),
        slice_in_file(s, sizes),
        (all_slices(chunks) + current).len() == 0 ==> s.file == 0 && s.start == 0,
        (all_slices(chunks) + current).len() > 0 ==> follows(
            (all_slices(chunks) + current).last(),
            s,
            sizes,
        ),
        whole ==> s.start == 0 && s.length == sizes[s.file as int],
    ensures
        plan_inv(chunks, current.push(s), sizes, whole),
        all_slices(chunks) + current.push(s) == (all_slices(chunks) + current).push(s),
{
    reveal(plan_inv);
    let flat = all_slices(chunks) + current;
    assert(all_slices(chunks) + current.push(s) =~= flat.push(s));
    lemma_walk_push(flat, sizes, s);
    if whole {
        let f = flat.push(s);
        assert forall|j: int| 0 <= j < f.len() implies (#[trigger] f[j]).start == 0 && f[j].length
            == sizes[f[j].file as int] by {
            if j < flat.len() {
                assert(f[j] == flat[j]);
            }
        }
    }
}

proof fn lemma_close(chunks: Seq<Seq<Slice>>, current: Seq<Slice>, sizes: Seq<u64>, whole: bool)
    requires
        plan_inv(chunks, current, sizes, whole),
        current.len() > 0,
    ensures
        plan_inv(chunks.push(current), seq![], sizes, whole),
        all_slices(chunks.push(current)) + seq![] == all_slices(chunks) + current,
{
    reveal(plan_inv);
    lemma_all_slices_push(chunks, current);
    assert(all_slices(chunks.push(current)) + seq![] =~= all_slices(chunks) + current);
    let c = chunks.push(current);
    assert forall|k: int| 0 <= k < c.len() implies (#[trigger] c[k]).len() > 0 by {
        if k < chunks.len() {
            assert(c[k] == chunks[k]);
        }
    }
}

proof fn lemma_chunks_view_push(v: Seq<Vec<Slice>>, c: Vec<Slice>)
    ensures
        chunks_view(v.push(c)) == chunks_view(v).push(c@),
{
    assert(chunks_view(v.push(c)) =~= chunks_view(v).push(c@));
}

pub open spec fn exec_state(chunks: Seq<Vec<Slice>>, current: Seq<Slice>, tally: u64) -> PlanState {
    PlanState { chunks: chunks_view(chunks), current, tally: tally as nat }
}

pub open spec fn flat_of(chunks: Seq<Vec<Slice>>, current: Seq<Slice>) -> Seq<Slice> {
    all_slices(chunks_view(chunks)) + current
}

/// Moves the chunk in progress to the closed chunks.
fn close_current(chunks: &mut Vec<Vec<Slice>>, current: &mut Vec<Slice>, Ghost(sizes): Ghost<Seq<u64>>, Ghost(whole): Ghost<bool>)
    requires
        plan_inv(chunks_view(old(chunks)@), old(current)@, sizes, whole),
        old(current)@.len() > 0,
    ensures
        chunks_view(final(chunks)@) == chunks_view(old(chunks)@).push(old(current)@),
        final(current)@ == Seq::<Slice>::empty(),
        plan_inv(chunks_view(final(chunks)@), final(current)@, sizes, whole),
        flat_of(final(chunks)@, final(current)@) == flat_of(old(chunks)@, old(current)@),
{
    proof {
        lemma_close(chunks_view(chunks@), current@, sizes, whole);
        lemma_chunks_view_push(chunks@, *current);
    }
    let mut done: Vec<Slice> = Vec::new();
    std::mem::swap(current, &mut done);
    chunks.push(done);
    proof {
        assert(current@ =~= seq![]);
    }
}

/// Adds a slice to the chunk in progress.
fn extend_current(chunks: &Vec<Vec<Slice>>, current: &mut Vec<Slice>, s: Slice, Ghost(sizes): Ghost<Seq<u64>>, Ghost(whole): Ghost<bool>)
    requires
        plan_inv(chunks_view(chunks@), old(current)@, sizes, whole),
        slice_in_file(s, sizes),
        flat_of(chunks@, old(current)@).len() == 0 ==> s.file == 0 && s.start == 0,
        flat_of(chunks@, old(current)@).len() > 0 ==> follows(flat_of(chunks@, old(current)@).last(), s, sizes),
        whole ==> s.start == 0 && s.length == sizes[s.file as int],
    ensures
        final(current)@ == old(current)@.push(s),
        plan_inv(chunks_view(chunks@), final(current)@, sizes, whole),
        flat_of(chunks@, final(current)@) == flat_of(chunks@, old(current)@).push(s),
{
    proof {
        lemma_extend(chunks_view(chunks@), current@, s, sizes, whole);
    }
    current.push(s);
}

/// One file, whole-file sources.
fn add_whole_file(
    chunks: &mut Vec<Vec<Slice>>,
    current: &mut Vec<Slice>,
    tally: &mut u64,
    i: usize,
    size: u64,
    Ghost(sizes): Ghost<Seq<u64>>,
)
    requires
        i < sizes.len(),
        sizes[i as int] == size,
        *old(tally) < CHUNK_SIZE,
        plan_inv(chunks_view(old(chunks)@), old(current)@, sizes, true),
        walk_covers(flat_of(old(chunks)@, old(current)@), sizes, i as int),
        old(current)@.len() > 0 ==> size < CHUNK_SIZE,
    ensures
        exec_state(final(chunks)@, final(current)@, *final(tally)) == whole_file_step(
            exec_state(old(chunks)@, old(current)@, *old(tally)),
            i as int,
            size as nat,
        ),
        *final(tally) < CHUNK_SIZE,
        plan_inv(chunks_view(final(chunks)@), final(current)@, sizes, true),
        walk_covers(flat_of(final(chunks)@, final(current)@), sizes, i + 1),
        final(current)@.len() > 0 ==> size < CHUNK_SIZE,
{
    let s = Slice { file: i, start: 0, length: size };
    proof {
        assert(flat_of(chunks@, current@).len() == 0 ==> i == 0);
    }
    if size >= CHUNK_SIZE {
        proof {
            assert(current@ =~= seq![]);
        }
        extend_current(chunks, current, s, Ghost(sizes), Ghost(true));
        close_current(chunks, current, Ghost(sizes), Ghost(true));
        proof {
            assert(seq![].push(s) =~= seq![s]);
        }
    } else {
        extend_current(chunks, current, s, Ghost(sizes), Ghost(true));
        if *tally + size >= CHUNK_SIZE {
            close_current(chunks, current, Ghost(sizes), Ghost(true));
            *tally = 0;
        } else {
            *tally = *tally + size;
        }
    }
}

/// One file, range-capable sources.
fn add_split_file(
    chunks: &mut Vec<Vec<Slice>>,
    current: &mut Vec<Slice>,
    tally: &mut u64,
    i: usize,
    size: u64,
    Ghost(sizes): Ghost<Seq<u64>>,
)
    requires
        i < sizes.len(),
        sizes[i as int] == size,
        *old(tally) < CHUNK_SIZE,
        plan_inv(chunks_view(old(chunks)@), old(current)@, sizes, false),
        walk_covers(flat_of(old(chunks)@, old(current)@), sizes, i as int),
    ensures
        exec_state(final(chunks)@, final(current)@, *final(tally)) == split_step(
            exec_state(old(chunks)@, old(current)@, *old(tally)),
            i as int,
            size as nat,
        ),
        *final(tally) < CHUNK_SIZE,
        plan_inv(chunks_view(final(chunks)@), final(current)@, sizes, false),
        walk_covers(flat_of(final(chunks)@, final(current)@), sizes, i + 1),
{
    proof {
        assert(flat_of(chunks@, current@).len() == 0 ==> i == 0);
    }
    if size < CHUNK_SIZE - *tally {
        let s = Slice { file: i, start: 0, length: size };
        extend_current(chunks, current, s, Ghost(sizes), Ghost(false));
        *tally = *tally + size;
        return;
    }
    let ghost st = exec_state(chunks@, current@, *tally);
    let fill = CHUNK_SIZE - *tally;
    let first = Slice { file: i, start: 0, length: fill };
    extend_current(chunks, current, first, Ghost(sizes), Ghost(false));
    close_current(chunks, current, Ghost(sizes), Ghost(false));
    let ghost base = chunks_view(chunks@);
    let ghost mut k: int = 0;
    let mut offset: u64 = fill;
    proof {
        assert(base =~= base + Seq::new(
            k as nat,
            |j: int| seq![piece(i as int, fill + j * CHUNK_SIZE, CHUNK_SIZE as int)],
        ));
    }
    while size - offset >= CHUNK_SIZE
        invariant
            i < sizes.len(),
            sizes[i as int] == size,
            fill <= offset <= size,
            k >= 0,
            offset == fill + k * CHUNK_SIZE,
            chunks_view(chunks@) == base + Seq::new(
                k as nat,
                |j: int| seq![piece(i as int, fill + j * CHUNK_SIZE, CHUNK_SIZE as int)],
            ),
            current@ == Seq::<Slice>::empty(),
            plan_inv(chunks_view(chunks@), current@, sizes, false),
            flat_of(chunks@, current@).len() > 0,
            flat_of(chunks@, current@).last().file == i,
            slice_end(flat_of(chunks@, current@).last()) == offset,
        decreases size - offset,
    {
        let full = Slice { file: i, start: offset, length: CHUNK_SIZE };
        let ghost prev = chunks_view(chunks@);
        extend_current(chunks, current, full, Ghost(sizes), Ghost(false));
        close_current(chunks, current, Ghost(sizes), Ghost(false));
        proof {
            assert(seq![].push(full) =~= seq![full]);
            assert(full == piece(i as int, fill + k * CHUNK_SIZE, CHUNK_SIZE as int));
            k = k + 1;
            assert(chunks_view(chunks@) =~= base + Seq::new(
                k as nat,
                |j: int| seq![piece(i as int, fill + j * CHUNK_SIZE, CHUNK_SIZE as int)],
            ));
        }
        offset = offset + CHUNK_SIZE;
    }
    proof {
        vstd::arithmetic::div_mod::lemma_fundamental_div_mod_converse(
            size - fill,
            CHUNK_SIZE as int,
            k,
            size - offset,
        );
    }
    if offset < size {
        let rest = Slice { file: i, start: offset, length: size - offset };
        extend_current(chunks, current, rest, Ghost(sizes), Ghost(false));
        *tally = size - offset;
        proof {
            assert(seq![].push(rest) =~= seq![rest]);
        }
    } else {
        *tally = 0;
    }
    proof {
        let nx = split_step(st, i as int, size as nat);
        assert(chunks_view(chunks@) =~= nx.chunks);
        assert(current@ =~= nx.current);
    }
}

/// Plans the chunks for `files`, which come largest first. With `whole`
/// (a source that can deliver whole files only) no file is split.
///
/// The result is the plan `planned` describes; every chunk holds at least
/// one slice; read chunk after chunk, the slices cut each file into pieces
/// that cover it exactly, files in the order given; and for a whole-file
/// source every slice is a whole file.
pub fn plan_chunks(files: &Vec<VersionFile>, whole: bool) -> (r: Vec<Vec<Slice>>)
    requires
        sizes_descending(sizes_of(files@)),
    ensures
        chunks_view(r@) == planned(sizes_of(files@), whole),
        chunks_nonempty(chunks_view(r@)),
        partitions(all_slices(chunks_view(r@)), sizes_of(files@)),
        whole ==> all_whole(all_slices(chunks_view(r@)), sizes_of(files@)),
{
    let ghost sizes = sizes_of(files@);
    let mut chunks: Vec<Vec<Slice>> = Vec::new();
    let mut current: Vec<Slice> = Vec::new();
    let mut tally: u64 = 0;
    let mut i: usize = 0;
    proof {
        assert(chunks_view(chunks@) =~= seq![]);
        assert(flat_of(chunks@, current@) =~= seq![]);
        reveal(plan_inv);
        assert(exec_state(chunks@, current@, tally) == plan_state(sizes.take(0), whole));
    }
    while i < files.len()
        invariant
            0 <= i <= files.len(),
            sizes == sizes_of(files@),
            sizes_descending(sizes),
            exec_state(chunks@, current@, tally) == plan_state(sizes.take(i as int), whole),
            tally < CHUNK_SIZE,
            plan_inv(chunks_view(chunks@), current@, sizes, whole),
            walk_covers(flat_of(chunks@, current@), sizes, i as int),
            whole && current@.len() > 0 ==> i > 0 && sizes[i - 1] < CHUNK_SIZE,
        decreases files.len() - i,
    {
        let size = files[i].size;
        proof {
            assert(sizes.take(i + 1).drop_last() =~= sizes.take(i as int));
            assert(sizes[i as int] == size);
            if whole && current@.len() > 0 {
                assert(sizes[i - 1] >= sizes[i as int]);
            }
        }
        if whole {
            add_whole_file(&mut chunks, &mut current, &mut tally, i, size, Ghost(sizes));
        } else {
            add_split_file(&mut chunks, &mut current, &mut tally, i, size, Ghost(sizes));
        }
        i = i + 1;
    }
    proof {
        assert(sizes.take(i as int) =~= sizes);
    }
    if current.len() > 0 {
        close_current(&mut chunks, &mut current, Ghost(sizes), Ghost(whole));
    }
    proof {
        reveal(plan_inv);
        assert(all_slices(chunks_view(chunks@)) + current@ =~= all_slices(chunks_view(chunks@)));
    }
    chunks
}

proof fn lemma_file_visited(flat: Seq<Slice>, sizes: Seq<u64>, k: int, i: int)
    requires
        walks(flat, sizes),
        0 <= k < flat.len(),
        0 <= i <= flat[k].file,
    ensures
        exists|j: int| 0 <= j <= k && (#[trigger] flat[j]).file == i,
    decreases k,
{
    if flat[k].file != i {
        assert(follows(flat[k - 1], flat[k], sizes));
        lemma_file_visited(flat, sizes, k - 1, i);
    }
}

/// A file of zero bytes gets exactly one slice in a partition, and that
/// slice is empty.
pub proof fn lemma_empty_file_one_slice(flat: Seq<Slice>, sizes: Seq<u64>, i: int)
    requires
        partitions(flat, sizes),
        0 <= i < sizes.len(),
        sizes[i] == 0,
    ensures
        exists|j: int| 0 <= j < flat.len() && (#[trigger] flat[j]).file == i && flat[j].length == 0,
        forall|j: int, k: int|
            0 <= j < flat.len() && 0 <= k < flat.len() && (#[trigger] flat[j]).file == i
                && (#[trigger] flat[k]).file == i ==> j == k,
{
    lemma_file_visited(flat, sizes, flat.len() - 1, i);
    let j = choose|j: int| 0 <= j <= flat.len() - 1 && (#[trigger] flat[j]).file == i;
    assert(slice_in_file(flat[j], sizes));
    assert forall|j: int, k: int|
        0 <= j < flat.len() && 0 <= k < flat.len() && (#[trigger] flat[j]).file == i
            && (#[trigger] flat[k]).file == i implies j == k by {
        if j < k {
            assert(slice_in_file(flat[j], sizes));
            assert(follows(flat[j], flat[j + 1], sizes));
        } else if k < j {
            assert(slice_in_file(flat[k], sizes));
            assert(follows(flat[k], flat[k + 1], sizes));
        }
    }
}

/// Planning looks at nothing but the sizes and their order: two file lists
/// with the same sizes in the same order get the same plan.
pub proof fn lemma_plan_depends_on_sizes_only(a: Seq<VersionFile>, b: Seq<VersionFile>, whole: bool)
    requires
        a.len() == b.len(),
        forall|j: int| 0 <= j < a.len() ==> (#[trigger] a[j]).size == b[j].size,
    ensures
        planned(sizes_of(a), whole) == planned(sizes_of(b), whole),
{
    assert(sizes_of(a) =~= sizes_of(b));
}

/// Orders files largest first, the order in which the planner takes them.
/// Files of equal size keep their relative order.
pub fn sort_largest_first(files: &Vec<VersionFile>) -> (r: Vec<VersionFile>)
    ensures
        r@.to_multiset() == files@.to_multiset(),
        sizes_descending(sizes_of(r@)),
{
    broadcast use vstd::seq_lib::to_multiset_build, vstd::seq_lib::to_multiset_insert;

    let mut out: Vec<VersionFile> = Vec::new();
    let mut i: usize = 0;
    proof {
        assert(files@.take(0) =~= Seq::<VersionFile>::empty());
        assert(out@ =~= Seq::<VersionFile>::empty());
    }
    while i < files.len()
        invariant
            0 <= i <= files.len(),
            out@.to_multiset() == files@.take(i as int).to_multiset(),
            sizes_descending(sizes_of(out@)),
        decreases files.len() - i,
    {
        let f = files[i].duplicate();
        let mut pos: usize = 0;
        while pos < out.len() && out[pos].size >= f.size
            invariant
                0 <= pos <= out.len(),
                forall|q: int| 0 <= q < pos ==> (#[trigger] out@[q]).size >= f.size,
            decreases out.len() - pos,
        {
            pos = pos + 1;
        }
        let ghost before = out@;
        out.insert(pos, f);
        proof {
            assert(files@.take(i + 1) =~= files@.take(i as int).push(files@[i as int]));
            vstd::seq_lib::to_multiset_build(files@.take(i as int), files@[i as int]);
            vstd::seq_lib::to_multiset_insert(before, pos as int, f);
            assert(out@ == before.insert(pos as int, f));
            let ss = sizes_of(out@);
            let so = sizes_of(before);
            assert(pos < before.len() ==> before[pos as int].size < f.size);
            assert forall|j: int, k: int| 0 <= j <= k < ss.len() implies ss[j] >= ss[k] by {
                assert(ss[j] == out@[j].size && ss[k] == out@[k].size);
                if k < pos {
                    assert(out@[j] == before[j] && out@[k] == before[k]);
                    assert(so[j] >= so[k]);
                } else if k == pos {
                    if j < pos {
                        assert(out@[j] == before[j]);
                    }
                } else if j > pos {
                    assert(out@[j] == before[j - 1] && out@[k] == before[k - 1]);
                    assert(so[j - 1] >= so[k - 1]);
                } else if j == pos {
                    assert(out@[k] == before[k - 1]);
                    assert(so[pos as int] >= so[k - 1]);
                } else {
                    assert(out@[j] == before[j] && out@[k] == before[k - 1]);
                    assert(so[j] >= so[k - 1]);
                }
            }
        }
        i = i + 1;
    }
    proof {
        assert(files@.take(i as int) =~= files@);
    }
    out
}

/// The sum of the sizes.
pub open spec fn total_size(sizes: Seq<u64>) -> int
    decreases sizes.len(),
{
    if sizes.len() == 0 {
        0
    } else {
        total_size(sizes.drop_last()) + sizes.last()
    }
}

/// The sum of the slices' lengths.
pub open spec fn lengths(c: Seq<Slice>) -> int
    decreases c.len(),
{
    if c.len() == 0 {
        0
    } else {
        lengths(c.drop_last()) + c.last().length
    }
}

proof fn lemma_lengths_push(c: Seq<Slice>, s: Slice)
    ensures
        lengths(c.push(s)) == lengths(c) + s.length,
{
    assert(c.push(s).drop_last() =~= c);
}

proof fn lemma_lengths_positive(c: Seq<Slice>)
    requires
        forall|j: int| 0 <= j < c.len() ==> (#[trigger] c[j]).length > 0,
    ensures
        c.len() > 0 ==> lengths(c) > 0,
        lengths(c) >= 0,
    decreases c.len(),
{
    if c.len() > 0 {
        lemma_lengths_positive(c.drop_last());
    }
}

/// For range-capable sources: the chunk in progress holds what is left of
/// the running total after whole chunks, and its slices are non-empty unless
/// their file is.
proof fn lemma_split_state(sizes: Seq<u64>, n: int)
    requires
        0 <= n <= sizes.len(),
        sizes.len() <= usize::MAX,
    ensures
        ({
            let st = plan_state(sizes.take(n), false);
            &&& st.tally < CHUNK_SIZE
            &&& st.tally == total_size(sizes.take(n)) % (CHUNK_SIZE as int)
            &&& st.tally == lengths(st.current)
            &&& forall|j: int|
                0 <= j < st.current.len() ==> (#[trigger] st.current[j]).file < n && (
                st.current[j].length > 0 || sizes[st.current[j].file as int] == 0)
        }),
    decreases n,
{
    let c = CHUNK_SIZE as int;
    if n == 0 {
        assert(sizes.take(0) =~= Seq::<u64>::empty());
    } else {
        lemma_split_state(sizes, n - 1);
        let t = sizes.take(n);
        assert(t.drop_last() =~= sizes.take(n - 1));
        assert(t.last() == sizes[n - 1]);
        let prev = plan_state(sizes.take(n - 1), false);
        let size = sizes[n - 1] as int;
        let total = total_size(sizes.take(n - 1));
        assert(total_size(t) == total + size);
        assert(total >= 0) by {
            lemma_total_size_nonneg(sizes.take(n - 1));
        }
        vstd::arithmetic::div_mod::lemma_fundamental_div_mod(total, c);
        let q = total / c;
        assert(total == c * q + prev.tally);
        let st = plan_state(t, false);
        if prev.tally + size < c {
            lemma_lengths_push(prev.current, piece(n - 1, 0, size));
            assert(st.current == prev.current.push(piece(n - 1, 0, size)));
            vstd::arithmetic::div_mod::lemma_fundamental_div_mod_converse(
                total + size,
                c,
                q,
                prev.tally + size,
            );
            assert forall|j: int| 0 <= j < st.current.len() implies (#[trigger] st.current[j]).file
                < n && (st.current[j].length > 0 || sizes[st.current[j].file as int] == 0) by {
                if j < prev.current.len() {
                    assert(st.current[j] == prev.current[j]);
                } else {
                    assert(st.current[j] == piece(n - 1, 0, size));
                    assert(size == sizes[n - 1]);
                    assert(piece(n - 1, 0, size).length == sizes[n - 1]);
                }
            }
        } else {
            let fill = c - prev.tally;
            let rest = size - fill;
            vstd::arithmetic::div_mod::lemma_fundamental_div_mod(rest, c);
            let k = rest / c;
            let rem = rest % c;
            assert(total + size == c * (q + 1 + k) + rem);
            vstd::arithmetic::div_mod::lemma_fundamental_div_mod_converse(
                total + size,
                c,
                q + 1 + k,
                rem,
            );
            if rem > 0 {
                lemma_lengths_push(seq![], piece(n - 1, fill + k * c, rem));
                assert(seq![].push(piece(n - 1, fill + k * c, rem)) =~= st.current);
            }
        }
    }
}

proof fn lemma_total_size_nonneg(sizes: Seq<u64>)
    ensures
        total_size(sizes) >= 0,
    decreases sizes.len(),
{
    if sizes.len() > 0 {
        lemma_total_size_nonneg(sizes.drop_last());
    }
}

/// Closed chunks stay as they are while later files are planned.
proof fn lemma_chunks_kept(sizes: Seq<u64>, m: int, n: int, whole: bool)
    requires
        0 <= m <= n <= sizes.len(),
    ensures
        plan_state(sizes.take(m), whole).chunks.len() <= plan_state(sizes.take(n), whole).chunks.len(),
        forall|k: int|
            0 <= k < plan_state(sizes.take(m), whole).chunks.len() ==> (#[trigger] plan_state(
                sizes.take(n),
                whole,
            ).chunks[k]) == plan_state(sizes.take(m), whole).chunks[k],
    decreases n - m,
{
    if m < n {
        lemma_chunks_kept(sizes, m, n - 1, whole);
        assert(sizes.take(n).drop_last() =~= sizes.take(n - 1));
        let a = plan_state(sizes.take(n - 1), whole);
        let b = plan_state(sizes.take(n), whole);
        assert forall|k: int| 0 <= k < a.chunks.len() implies b.chunks[k] == a.chunks[k] by {
            if !whole && a.tally + sizes[n - 1] >= CHUNK_SIZE {
                let fill = CHUNK_SIZE - a.tally;
                let pushed = a.chunks.push(a.current.push(piece(n - 1, 0, fill)));
                assert(b.chunks[k] == pushed[k]);
            }
        }
    }
}

/// Under a range-capable source, a file of exactly the target size that
/// starts on a chunk boundary (the files before it, largest first, add up to
/// a multiple of the target size) is a chunk of its own.
pub proof fn lemma_exact_file_own_chunk(sizes: Seq<u64>, i: int)
    requires
        sizes_descending(sizes),
        sizes.len() <= usize::MAX,
        0 <= i < sizes.len(),
        sizes[i] == CHUNK_SIZE,
        total_size(sizes.take(i)) % (CHUNK_SIZE as int) == 0,
    ensures
        exists|k: int|
            0 <= k < planned(sizes, false).len() && #[trigger] planned(sizes, false)[k] == seq![
                piece(i, 0, CHUNK_SIZE as int),
            ],
{
    lemma_split_state(sizes, i);
    let prev = plan_state(sizes.take(i), false);
    assert forall|j: int| 0 <= j < prev.current.len() implies (#[trigger] prev.current[j]).length
        > 0 by {
        let f = prev.current[j].file as int;
        assert(sizes[f] >= sizes[i]);
    }
    lemma_lengths_positive(prev.current);
    assert(prev.current =~= Seq::<Slice>::empty());
    assert(sizes.take(i + 1).drop_last() =~= sizes.take(i));
    assert(sizes.take(i + 1).last() == sizes[i]);
    let st = plan_state(sizes.take(i + 1), false);
    let k = prev.chunks.len() as int;
    assert(st.chunks == prev.chunks.push(prev.current.push(piece(i, 0, CHUNK_SIZE as int))) + Seq::new(
        0,
        |j: int| seq![piece(i, CHUNK_SIZE + j * CHUNK_SIZE, CHUNK_SIZE as int)],
    ));
    assert(st.chunks.len() == k + 1);
    assert(seq![].push(piece(i, 0, CHUNK_SIZE as int)) =~= seq![piece(i, 0, CHUNK_SIZE as int)]);
    assert(st.chunks[k] == seq![piece(i, 0, CHUNK_SIZE as int)]);
    lemma_chunks_kept(sizes, i + 1, sizes.len() as int, false);
    assert(sizes.take(sizes.len() as int) =~= sizes);
    let fin = plan_state(sizes, false);
    assert(fin.chunks[k] == seq![piece(i, 0, CHUNK_SIZE as int)]);
    if fin.current.len() > 0 {
        assert(planned(sizes, false)[k] == fin.chunks[k]);
    }
    assert(0 <= k < planned(sizes, false).len());
    assert(planned(sizes, false)[k] == seq![piece(i, 0, CHUNK_SIZE as int)]);
}

/// In a partition, a slice that covers the whole of a non-empty file is the
/// only slice of that file.
pub proof fn lemma_whole_slice_alone(flat: Seq<Slice>, sizes: Seq<u64>, m: int)
    requires
        partitions(flat, sizes),
        0 <= m < flat.len(),
        flat[m].start == 0,
        flat[m].length == sizes[flat[m].file as int],
        flat[m].length > 0,
    ensures
        forall|j: int| 0 <= j < flat.len() && (#[trigger] flat[j]).file == flat[m].file ==> j == m,
{
    assert forall|j: int| 0 <= j < flat.len() && (#[trigger] flat[j]).file == flat[m].file implies j
        == m by {
        if j > m {
            assert(follows(flat[m], flat[m + 1], sizes));
            assert(flat[m + 1].file <= flat[j].file);
        } else if j < m {
            assert(follows(flat[m - 1], flat[m], sizes));
            assert(slice_in_file(flat[m - 1], sizes));
            assert(flat[j].file <= flat[m - 1].file);
        }
    }
}

} // verus!
