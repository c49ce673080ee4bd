//! Processing a chunk of the game log: map entry and exit, and the drops that it records.

use vstd::prelude::*;
use crate::counts::{count_of, DropCounts};
use crate::drop::{
    collect_drops, counts_fit, drop_start_marker, drop_views, drops_in, lemma_contains_extend,
    lemma_no_marker_no_blocks,
    lemma_tally_counts, lemma_total_nonneg, total_for, scan_drop_blocks, spec_scan_drop_blocks,
    table_view, tally, tally_drops, PickedDrop, PriceTableEntry,
};
use crate::log_parser::{convert_from_log_structure, lines_well_bracketed, spec_convert, well_bracketed};
use crate::log_tree::{canonical, lemma_canonical};
use crate::text::{chars_of, contains_chars, contains_seq, string_views};

verus! {

/// The log line that marks entering a map.
pub const MAP_ENTER_PATTERN: &'static str = "PageApplyBase@ _UpdateGameEnd: LastSceneName = World'/Game/Art/Maps/01SD/XZ_YuJinZhiXiBiNanSuo200/XZ_YuJinZhiXiBiNanSuo200.XZ_YuJinZhiXiBiNanSuo200' NextSceneName = World'/Game/Art/Maps";

/// The log line that marks leaving a map.
pub const MAP_EXIT_PATTERN: &'static str = "NextSceneName = World'/Game/Art/Maps/01SD/XZ_YuJinZhiXiBiNanSuo200/XZ_YuJinZhiXiBiNanSuo200.XZ_YuJinZhiXiBiNanSuo200'";

/// The text records entering a map.
pub open spec fn map_entered(text: Seq<char>) -> bool {
    contains_seq(text, MAP_ENTER_PATTERN@)
}

/// The text records leaving a map.
pub open spec fn map_exited(text: Seq<char>) -> bool {
    contains_seq(text, MAP_EXIT_PATTERN@)
}

/// Detects map enter in log text.
pub fn detect_map_enter(text: &str) -> (r: bool)
    ensures
        r == map_entered(text@),
{
    contains_chars(&chars_of(text), &chars_of(MAP_ENTER_PATTERN))
}

/// Detects map exit in log text.
pub fn detect_map_exit(text: &str) -> (r: bool)
    ensures
        r == map_exited(text@),
{
    contains_chars(&chars_of(text), &chars_of(MAP_EXIT_PATTERN))
}


/// The tallies that carry over from one chunk to the next.
pub struct DropState {
    pub drop_list: DropCounts,
    pub drop_list_all: DropCounts,
    pub map_count: u32,
}

impl DropState {
    /// No drops and no maps yet.
    pub fn new() -> (r: DropState)
        ensures
            r.drop_list@ == Map::<Seq<char>, u32>::empty(),
            r.drop_list_all@ == Map::<Seq<char>, u32>::empty(),
            r.map_count == 0,
    {
        DropState { drop_list: DropCounts::new(), drop_list_all: DropCounts::new(), map_count: 0 }
    }
}

impl From<ProcessOutput> for DropState {
    fn from(o: ProcessOutput) -> (r: DropState) {
        DropState { drop_list: o.drop_list, drop_list_all: o.drop_list_all, map_count: o.map_count }
    }
}

impl vstd::std_specs::convert::FromSpecImpl<ProcessOutput> for DropState {
    open spec fn obeys_from_spec() -> bool {
        true
    }

    open spec fn from_spec(o: ProcessOutput) -> DropState {
        DropState { drop_list: o.drop_list, drop_list_all: o.drop_list_all, map_count: o.map_count }
    }
}

/// A chunk of log text with what processing it needs.
pub struct ProcessInput {
    pub log_text: String,
    pub price_table: Vec<PriceTableEntry>,
    pub tax_enabled: bool,
    pub exclude_list: Vec<String>,
    pub previous_state: Option<DropState>,
}

/// What processing a chunk gives; its tallies are the state for the next chunk.
pub struct ProcessOutput {
    pub drop_list: DropCounts,
    pub drop_list_all: DropCounts,
    pub map_count: u32,
    pub map_enter: bool,
    pub map_exit: bool,
    /// The drops of the chunk, in the order they were counted.
    pub drops: Vec<PickedDrop>,
}

/// The drops that a drop block records, in node order.
pub open spec fn block_drops(
    b: Seq<char>,
    t: Seq<(Seq<char>, Seq<char>)>,
    ex: Seq<Seq<char>>,
    tax_enabled: bool,
) -> Seq<(Seq<char>, u32, bool)> {
    let m = spec_convert(b);
    drops_in(canonical(m), m, t, ex, tax_enabled)
}

/// The drops of the blocks, block after block.
pub open spec fn blocks_drops(
    bs: Seq<Seq<char>>,
    t: Seq<(Seq<char>, Seq<char>)>,
    ex: Seq<Seq<char>>,
    tax_enabled: bool,
) -> Seq<(Seq<char>, u32, bool)>
    decreases bs.len(),
{
    if bs.len() == 0 {
        Seq::empty()
    } else {
        blocks_drops(bs.drop_last(), t, ex, tax_enabled) + block_drops(bs.last(), t, ex, tax_enabled)
    }
}

/// The drops of a chunk.
pub open spec fn chunk_drops(input: ProcessInput) -> Seq<(Seq<char>, u32, bool)> {
    blocks_drops(
        spec_scan_drop_blocks(input.log_text@),
        table_view(input.price_table@),
        string_views(input.exclude_list@),
        input.tax_enabled,
    )
}

/// The tally since the last map entry that the chunk starts from.
pub open spec fn prev_list(input: ProcessInput) -> Map<Seq<char>, u32> {
    match input.previous_state {
        Some(s) => s.drop_list@,
        None => Map::empty(),
    }
}

/// The all-time tally that the chunk starts from.
pub open spec fn prev_all(input: ProcessInput) -> Map<Seq<char>, u32> {
    match input.previous_state {
        Some(s) => s.drop_list_all@,
        None => Map::empty(),
    }
}

/// The map count that the chunk starts from.
pub open spec fn prev_map_count(input: ProcessInput) -> u32 {
    match input.previous_state {
        Some(s) => s.map_count,
        None => 0,
    }
}

/// The tally since the last map entry that the chunk's drops are added to: empty when
/// the chunk enters a map.
pub open spec fn start_list(input: ProcessInput) -> Map<Seq<char>, u32> {
    if map_entered(input.log_text@) {
        Map::empty()
    } else {
        prev_list(input)
    }
}

/// Processing the chunk panics nowhere: every drop block converts, the map count and the
/// tallies overflow no `u32`.
pub open spec fn chunk_runs(input: ProcessInput) -> bool {
    let bs = spec_scan_drop_blocks(input.log_text@);
    &&& forall|i: int| 0 <= i < bs.len() ==> well_bracketed(#[trigger] bs[i])
    &&& map_entered(input.log_text@) ==> prev_map_count(input) < u32::MAX
    &&& counts_fit(start_list(input), chunk_drops(input))
    &&& counts_fit(prev_all(input), chunk_drops(input))
}

/// `o` is what processing the chunk gives.
pub open spec fn chunk_result(input: ProcessInput, o: ProcessOutput) -> bool {
    &&& o.map_enter == map_entered(input.log_text@)
    &&& o.map_exit == map_exited(input.log_text@)
    &&& drop_views(o.drops@) == chunk_drops(input)
    &&& o.drop_list@ == tally(start_list(input), chunk_drops(input))
    &&& o.drop_list_all@ == tally(prev_all(input), chunk_drops(input))
    &&& o.map_count == prev_map_count(input) + if map_entered(input.log_text@) {
        1int
    } else {
        0int
    }
}

/// Processes a log chunk, or says that the processing would panic (a drop block whose
/// bracketed value cannot be sliced out, or a count that overflows).
pub fn try_process_log_chunk(input: ProcessInput) -> (r: Option<ProcessOutput>)
    ensures
        r is Some <==> chunk_runs(input),
        r matches Some(o) ==> chunk_result(input, o),
{
    let ghost gin = input;
    let enter = detect_map_enter(input.log_text.as_str());
    let exit = detect_map_exit(input.log_text.as_str());
    let blocks = scan_drop_blocks(input.log_text.as_str());
    let ghost bs = string_views(blocks@);
    let nb = blocks.len();
    for i in 0..nb
        invariant
            nb == blocks.len(),
            bs == string_views(blocks@),
            bs == spec_scan_drop_blocks(input.log_text@),
            forall|j: int| 0 <= j < i ==> well_bracketed(#[trigger] bs[j]),
    {
        if !lines_well_bracketed(blocks[i].as_str()) {
            assert(bs[i as int] == blocks@[i as int]@);
            return None;
        }
    }
    let mut drops: Vec<PickedDrop> = Vec::new();
    let ghost t = table_view(input.price_table@);
    let ghost ex = string_views(input.exclude_list@);
    assert(bs.take(0) =~= Seq::<Seq<char>>::empty());
    for i in 0..nb
        invariant
            nb == blocks.len(),
            bs == string_views(blocks@),
            bs == spec_scan_drop_blocks(input.log_text@),
            t == table_view(input.price_table@),
            ex == string_views(input.exclude_list@),
            forall|j: int| 0 <= j < nb ==> well_bracketed(#[trigger] bs[j]),
            drop_views(drops@) == blocks_drops(bs.take(i as int), t, ex, input.tax_enabled),
    {
        assert(bs[i as int] == blocks@[i as int]@);
        assert(well_bracketed(bs[i as int]));
        let tree = convert_from_log_structure(blocks[i].as_str()).unwrap();
        proof {
            lemma_canonical(tree@);
        }
        let mut ds = collect_drops(&tree, &input.price_table, input.tax_enabled, &input.exclude_list);
        let ghost old_drops = drop_views(drops@);
        let ghost dsv = drop_views(ds@);
        drops.append(&mut ds);
        assert(bs.take(i + 1).drop_last() =~= bs.take(i as int));
        assert(drop_views(drops@) =~= old_drops + dsv);
    }
    assert(bs.take(nb as int) =~= bs);
    assert(drop_views(drops@) == chunk_drops(gin));
    let (mut list, mut all, mut count) = match input.previous_state {
        Some(s) => (s.drop_list, s.drop_list_all, s.map_count),
        None => (DropCounts::new(), DropCounts::new(), 0),
    };
    if enter {
        list = DropCounts::new();
        if count == u32::MAX {
            return None;
        }
        count = count + 1;
    }
    if !tally_drops(&mut list, &drops) {
        return None;
    }
    if !tally_drops(&mut all, &drops) {
        return None;
    }
    Some(
        ProcessOutput {
            drop_list: list,
            drop_list_all: all,
            map_count: count,
            map_enter: enter,
            map_exit: exit,
            drops,
        },
    )
}

/// Processes a log chunk and returns the updated state.
pub fn process_log_chunk(input: ProcessInput) -> (r: ProcessOutput)
    requires
        chunk_runs(input),
    ensures
        chunk_result(input, r),
{
    try_process_log_chunk(input).unwrap()
}


/// Law: both tallies take exactly the chunk's drops. Each count grows by what the chunk's
/// drops add for that item, so the all-time tally never shrinks, and the tally since the
/// last map entry grows by the same amount (after being emptied when the chunk enters a map).
pub proof fn lemma_chunk_tallies(input: ProcessInput, o: ProcessOutput, k: Seq<char>)
    requires
        chunk_runs(input),
        chunk_result(input, o),
    ensures
        count_of(o.drop_list@, k) == count_of(start_list(input), k) + total_for(chunk_drops(input), k),
        count_of(o.drop_list_all@, k) == count_of(prev_all(input), k) + total_for(chunk_drops(input), k),
        count_of(o.drop_list_all@, k) >= count_of(prev_all(input), k),
        count_of(o.drop_list_all@, k) - count_of(prev_all(input), k) == count_of(o.drop_list@, k)
            - count_of(start_list(input), k),
{
    lemma_tally_counts(start_list(input), chunk_drops(input), k);
    lemma_tally_counts(prev_all(input), chunk_drops(input), k);
    lemma_total_nonneg(chunk_drops(input), k);
}


/// Law: an output used as the next call's previous state carries the counts on: after two
/// chunks, the all-time tally holds what it held before plus both chunks' drops, and the
/// map count has grown by the map entries of both.
pub proof fn lemma_chunks_chain(
    a: ProcessInput,
    oa: ProcessOutput,
    b: ProcessInput,
    ob: ProcessOutput,
    k: Seq<char>,
)
    requires
        chunk_runs(a),
        chunk_result(a, oa),
        b.previous_state == Some(
            DropState { drop_list: oa.drop_list, drop_list_all: oa.drop_list_all, map_count: oa.map_count },
        ),
        chunk_runs(b),
        chunk_result(b, ob),
    ensures
        count_of(ob.drop_list_all@, k) == count_of(prev_all(a), k) + total_for(chunk_drops(a), k)
            + total_for(chunk_drops(b), k),
        ob.map_count == prev_map_count(a) + (if map_entered(a.log_text@) {
            1int
        } else {
            0int
        }) + (if map_entered(b.log_text@) {
            1int
        } else {
            0int
        }),
{
    lemma_chunk_tallies(a, oa, k);
    lemma_chunk_tallies(b, ob, k);
}


/// Law: a chunk without a drop block's start marker and without a map entry changes no
/// tally and no map count, and records no drop.
pub proof fn lemma_quiet_chunk_keeps_state(input: ProcessInput, o: ProcessOutput)
    requires
        chunk_result(input, o),
        !contains_seq(input.log_text@, drop_start_marker()),
        !map_entered(input.log_text@),
    ensures
        o.drop_list@ == prev_list(input),
        o.drop_list_all@ == prev_all(input),
        o.map_count == prev_map_count(input),
        o.drops@.len() == 0,
{
    lemma_no_marker_no_blocks(input.log_text@);
    let bs = spec_scan_drop_blocks(input.log_text@);
    assert(bs.len() == 0);
    assert(chunk_drops(input) == Seq::<(Seq<char>, u32, bool)>::empty());
    assert(drop_views(o.drops@).len() == o.drops@.len());
}


/// Law: a map entry stays detected whatever text surrounds it, a map-exit line included;
/// likewise a map exit.
pub proof fn lemma_map_marks_survive_context(a: Seq<char>, text: Seq<char>, c: Seq<char>)
    ensures
        map_entered(text) ==> map_entered(a + text + c),
        map_exited(text) ==> map_exited(a + text + c),
        contains_seq(text, MAP_ENTER_PATTERN@) ==> map_entered(text),
        contains_seq(text, MAP_EXIT_PATTERN@) ==> map_exited(text),
{
    if map_entered(text) {
        lemma_contains_extend(a, text, c, MAP_ENTER_PATTERN@);
    }
    if map_exited(text) {
        lemma_contains_extend(a, text, c, MAP_EXIT_PATTERN@);
    }
}

/// Law: when a chunk enters a map, the tally since the entry holds the chunk's own drops
/// and nothing from before, whether or not the chunk has a drop block.
pub proof fn lemma_map_entry_restarts_tally(input: ProcessInput, o: ProcessOutput, k: Seq<char>)
    requires
        chunk_runs(input),
        chunk_result(input, o),
        map_entered(input.log_text@),
    ensures
        count_of(o.drop_list@, k) == total_for(chunk_drops(input), k),
        o.map_count == prev_map_count(input) + 1,
{
    lemma_chunk_tallies(input, o, k);
    assert(!Map::<Seq<char>, u32>::empty().dom().contains(k));
}

} // verus!
