//! Drop blocks in the game log, and the tallies of picked-up items.

use vstd::prelude::*;
use crate::counts::{count_of, DropCounts};
use crate::log_tree::{copy_path, LogTree};
use crate::text::{
    append_chars, chars_of, contains_chars, contains_seq, lemma_contains_trans, lemma_split_append_piece,
    lemma_split_no_sep, lemma_split_pieces, lemma_split_plain,
    lemma_views_push, split, split_chars,
    string_of, string_views, trim, trimmed, views,
};
use crate::value::{i64_text, i64_to_text, EntryView, LogEntry};

verus! {

/// The marker of the line that opens a drop block.
pub open spec fn drop_start_marker() -> Seq<char> {
    "+DropItems+1+"@
}

/// The marker of the line that closes a drop block.
pub open spec fn drop_end_marker() -> Seq<char> {
    "Display:"@
}

/// One line of the scan: outside a block, a line with the start marker opens one; inside a
/// block, every line joins it (after a `\n`), and a line with the end marker closes it.
pub open spec fn scan_step(st: (Seq<Seq<char>>, Option<Seq<char>>), line: Seq<char>) -> (
    Seq<Seq<char>>,
    Option<Seq<char>>,
) {
    match st.1 {
        None => if contains_seq(line, drop_start_marker()) {
            (st.0, Some(line))
        } else {
            st
        },
        Some(cur) => {
            let joined = cur + seq!['\n'] + line;
            if contains_seq(line, drop_end_marker()) {
                (st.0.push(joined), None)
            } else {
                (st.0, Some(joined))
            }
        },
    }
}

/// The closed blocks and the open one, if any, after the given lines.
pub open spec fn scan_lines(lines: Seq<Seq<char>>) -> (Seq<Seq<char>>, Option<Seq<char>>)
    decreases lines.len(),
{
    if lines.len() == 0 {
        (Seq::empty(), None)
    } else {
        scan_step(scan_lines(lines.drop_last()), lines.last())
    }
}

/// The drop blocks of `text`, in order; a block still open at the end of the text counts.
pub open spec fn spec_scan_drop_blocks(text: Seq<char>) -> Seq<Seq<char>> {
    let st = scan_lines(split(text, '\n'));
    match st.1 {
        Some(cur) => st.0.push(cur),
        None => st.0,
    }
}

/// Scans log text for drop blocks: each runs from a line holding `+DropItems+1+` to the next
/// line holding `Display:`, or to the end of the text.
pub fn scan_drop_blocks(text: &str) -> (r: Vec<String>)
    ensures
        string_views(r@) == spec_scan_drop_blocks(text@),
{
    let chars = chars_of(text);
    let lines = split_chars(&chars, '\n');
    let ghost ls = views(lines@);
    let start = chars_of("+DropItems+1+");
    let end = chars_of("Display:");
    let mut blocks: Vec<String> = Vec::new();
    let mut cur: Vec<char> = Vec::new();
    let mut open = false;
    let n = lines.len();
    assert(ls.take(0) =~= Seq::<Seq<char>>::empty());
    for i in 0..n
        invariant
            n == lines.len(),
            ls == views(lines@),
            ls == split(text@, '\n'),
            start@ == drop_start_marker(),
            end@ == drop_end_marker(),
            scan_lines(ls.take(i as int)) == (string_views(blocks@), if open {
                Some(cur@)
            } else {
                None::<Seq<char>>
            }),
    {
        let line = &lines[i];
        assert(ls[i as int] == line@);
        assert(ls.take(i + 1).drop_last() =~= ls.take(i as int));
        assert(scan_lines(ls.take(i + 1)) == scan_step(scan_lines(ls.take(i as int)), line@));
        let ghost old_cur = cur@;
        if !open {
            if contains_chars(line, &start) {
                cur = crate::text::copy_chars(line);
                open = true;
            }
        } else {
            cur.push('\n');
            append_chars(&mut cur, line);
            assert(cur@ =~= old_cur + seq!['\n'] + line@);
            if contains_chars(line, &end) {
                let ghost old_blocks = string_views(blocks@);
                let s = string_of(&cur);
                blocks.push(s);
                assert(string_views(blocks@) =~= old_blocks.push(cur@));
                cur = Vec::new();
                open = false;
            }
        }
    }
    assert(ls.take(n as int) =~= ls);
    if open {
        let ghost old_blocks = string_views(blocks@);
        blocks.push(string_of(&cur));
        assert(string_views(blocks@) =~= old_blocks.push(cur@));
    }
    blocks
}


/// An item of the price table, as far as the drop logic reads it: its id and its name.
pub struct PriceTableEntry {
    pub id: String,
    pub name: String,
}

/// The (id, name) pairs of a price table.
pub open spec fn table_view(t: Seq<PriceTableEntry>) -> Seq<(Seq<char>, Seq<char>)> {
    t.map_values(|e: PriceTableEntry| (e.id@, e.name@))
}

/// A picked-up item that counts: its id, how many, and whether its price is taxed.
pub struct PickedDrop {
    pub base_id: String,
    pub num: u32,
    pub taxed: bool,
}

impl View for PickedDrop {
    type V = (Seq<char>, u32, bool);

    open spec fn view(&self) -> (Seq<char>, u32, bool) {
        (self.base_id@, self.num, self.taxed)
    }
}

/// The views of a sequence of drops.
pub open spec fn drop_views(v: Seq<PickedDrop>) -> Seq<(Seq<char>, u32, bool)> {
    v.map_values(|d: PickedDrop| d@)
}

/// The entry at path `p`, if any.
pub open spec fn entry_at(m: Map<Seq<Seq<char>>, EntryView>, p: Seq<Seq<char>>) -> Option<EntryView> {
    if m.dom().contains(p) {
        Some(m[p])
    } else {
        None
    }
}

/// An object sits at path `p`.
pub open spec fn object_at(m: Map<Seq<Seq<char>>, EntryView>, p: Seq<Seq<char>>) -> bool {
    m.dom().contains(p) && m[p] is Object
}

/// The node at `p` is marked picked up: its own `Picked` member is `true`, or that of its
/// `item` object is.
pub open spec fn is_picked(m: Map<Seq<Seq<char>>, EntryView>, p: Seq<Seq<char>>) -> bool {
    ||| entry_at(m, p.push("Picked"@)) == Some(EntryView::Bool(true))
    ||| object_at(m, p.push("item"@)) && entry_at(m, p.push("item"@).push("Picked"@)) == Some(
        EntryView::Bool(true),
    )
}

/// The member `name` of the node's `item` object, taken from its `SpecialInfo` object when
/// that has it; nothing when `item` is no object.
pub open spec fn item_field(m: Map<Seq<Seq<char>>, EntryView>, p: Seq<Seq<char>>, name: Seq<char>) -> Option<
    EntryView,
> {
    let item = p.push("item"@);
    let special = item.push("SpecialInfo"@);
    if !object_at(m, item) {
        None
    } else if object_at(m, special) && m.dom().contains(special.push(name)) {
        Some(m[special.push(name)])
    } else {
        entry_at(m, item.push(name))
    }
}

/// The value as an `i64`, if it is an integer.
pub open spec fn as_i64(o: Option<EntryView>) -> Option<i64> {
    match o {
        Some(EntryView::Int(i)) => Some(i),
        _ => None,
    }
}

/// The value as a count: a non-negative integer truncated to 32 bits, else 0.
pub open spec fn as_count(o: Option<EntryView>) -> u32 {
    match o {
        Some(EntryView::Int(i)) => if i >= 0 {
            (i % 0x1_0000_0000) as u32
        } else {
            0
        },
        _ => 0,
    }
}

/// The name that the first table entry with id `id` gives, else `id` itself.
pub open spec fn lookup_name(t: Seq<(Seq<char>, Seq<char>)>, id: Seq<char>) -> Seq<char>
    decreases t.len(),
{
    if t.len() == 0 {
        id
    } else if t[0].0 == id {
        t[0].1
    } else {
        lookup_name(t.drop_first(), id)
    }
}

/// `name` is on the exclude list.
pub open spec fn is_excluded(ex: Seq<Seq<char>>, name: Seq<char>) -> bool {
    exists|i: int| 0 <= i < ex.len() && ex[i] == name
}

/// The price of item `id` is taxed: tax is on, and the item is not `100300`.
pub open spec fn taxed(tax_enabled: bool, id: Seq<char>) -> bool {
    tax_enabled && id != "100300"@
}

/// The drop that the object at `p` records, if it has an `item` member, is picked up,
/// has an integer `BaseId`, and its name is neither blank nor excluded.
pub open spec fn drop_at(
    m: Map<Seq<Seq<char>>, EntryView>,
    p: Seq<Seq<char>>,
    t: Seq<(Seq<char>, Seq<char>)>,
    ex: Seq<Seq<char>>,
    tax_enabled: bool,
) -> Option<(Seq<char>, u32, bool)> {
    if m.dom().contains(p.push("item"@)) && is_picked(m, p) && as_i64(
        item_field(m, p, "BaseId"@),
    ) is Some {
        let id = i64_text(as_i64(item_field(m, p, "BaseId"@))->0);
        let name = lookup_name(t, id);
        if trim(name).len() > 0 && !is_excluded(ex, name) {
            Some((id, as_count(item_field(m, p, "Num"@)), taxed(tax_enabled, id)))
        } else {
            None
        }
    } else {
        None
    }
}

/// The drops that the object nodes among `es` record, in order.
pub open spec fn drops_in(
    es: Seq<(Seq<Seq<char>>, EntryView)>,
    m: Map<Seq<Seq<char>>, EntryView>,
    t: Seq<(Seq<char>, Seq<char>)>,
    ex: Seq<Seq<char>>,
    tax_enabled: bool,
) -> Seq<(Seq<char>, u32, bool)>
    decreases es.len(),
{
    if es.len() == 0 {
        Seq::empty()
    } else {
        let rest = drops_in(es.drop_last(), m, t, ex, tax_enabled);
        if es.last().1 is Object && drop_at(m, es.last().0, t, ex, tax_enabled) is Some {
            rest.push(drop_at(m, es.last().0, t, ex, tax_enabled)->0)
        } else {
            rest
        }
    }
}

/// The path `p` extended by the key `k`.
fn child(p: &Vec<Vec<char>>, k: &str) -> (r: Vec<Vec<char>>)
    ensures
        views(r@) == views(p@).push(k@),
{
    let mut r = copy_path(p);
    let c = chars_of(k);
    let ghost old_r = r@;
    r.push(c);
    proof {
        lemma_views_push(old_r, c);
    }
    r
}

fn is_true(e: Option<&LogEntry>) -> (r: bool)
    ensures
        r == (match e {
            Some(x) => x@ == EntryView::Bool(true),
            None => false,
        }),
{
    match e {
        Some(LogEntry::Bool(b)) => *b,
        _ => false,
    }
}

fn object_entry(e: Option<&LogEntry>) -> (r: bool)
    ensures
        r == (match e {
            Some(x) => x@ is Object,
            None => false,
        }),
{
    match e {
        Some(x) => x.is_object(),
        None => false,
    }
}

fn picked(tree: &LogTree, p: &Vec<Vec<char>>) -> (r: bool)
    requires
        tree.wf(),
    ensures
        r == is_picked(tree.map(), views(p@)),
{
    let item = child(p, "item");
    is_true(tree.get_path(&child(p, "Picked"))) || (object_entry(tree.get_path(&item)) && is_true(
        tree.get_path(&child(&item, "Picked")),
    ))
}

fn field_entry<'a>(tree: &'a LogTree, p: &Vec<Vec<char>>, name: &str) -> (r: Option<&'a LogEntry>)
    requires
        tree.wf(),
    ensures
        match r {
            Some(e) => item_field(tree.map(), views(p@), name@) == Some(e@),
            None => item_field(tree.map(), views(p@), name@) is None,
        },
{
    let item = child(p, "item");
    if !object_entry(tree.get_path(&item)) {
        return None;
    }
    let special = child(&item, "SpecialInfo");
    if object_entry(tree.get_path(&special)) {
        let v = tree.get_path(&child(&special, name));
        if v.is_some() {
            return v;
        }
    }
    tree.get_path(&child(&item, name))
}

/// The name of item `id` in the price table, or `id` itself.
pub fn lookup_item_name(table: &Vec<PriceTableEntry>, id: &String) -> (r: String)
    ensures
        r@ == lookup_name(table_view(table@), id@),
{
    let ghost tv = table_view(table@);
    let n = table.len();
    assert(tv.skip(0) =~= tv);
    for i in 0..n
        invariant
            n == table.len(),
            tv == table_view(table@),
            lookup_name(tv, id@) == lookup_name(tv.skip(i as int), id@),
    {
        assert(tv.skip(i as int)[0] == (table@[i as int].id@, table@[i as int].name@));
        if table[i].id == *id {
            return table[i].name.clone();
        }
        assert(tv.skip(i as int).drop_first() =~= tv.skip(i + 1));
    }
    id.clone()
}

/// Whether `name` is on the exclude list.
pub fn excluded(ex: &Vec<String>, name: &String) -> (r: bool)
    ensures
        r == is_excluded(string_views(ex@), name@),
{
    let n = ex.len();
    for i in 0..n
        invariant
            n == ex.len(),
            forall|j: int| 0 <= j < i ==> string_views(ex@)[j] != name@,
    {
        if ex[i] == *name {
            assert(string_views(ex@)[i as int] == name@);
            return true;
        }
    }
    false
}

/// Whether the price of item `item_id` is taxed (12.5%) when tax is on: every item but
/// `100300` is.
pub fn tax_applies(tax_enabled: bool, item_id: &String) -> (r: bool)
    ensures
        r == taxed(tax_enabled, item_id@),
{
    let exempt = String::from_str("100300");
    tax_enabled && !(*item_id == exempt)
}

fn drop_at_node(
    tree: &LogTree,
    p: &Vec<Vec<char>>,
    table: &Vec<PriceTableEntry>,
    ex: &Vec<String>,
    tax_enabled: bool,
) -> (r: Option<PickedDrop>)
    requires
        tree.wf(),
    ensures
        match r {
            Some(d) => drop_at(tree.map(), views(p@), table_view(table@), string_views(ex@), tax_enabled) == Some(d@),
            None => drop_at(tree.map(), views(p@), table_view(table@), string_views(ex@), tax_enabled) is None,
        },
{
    if tree.get_path(&child(p, "item")).is_none() {
        return None;
    }
    if !picked(tree, p) {
        return None;
    }
    let base = match field_entry(tree, p, "BaseId") {
        Some(LogEntry::Int(i)) => *i,
        _ => {
            return None;
        },
    };
    let id = string_of(&i64_to_text(base));
    let name = lookup_item_name(table, &id);
    if trimmed(&chars_of(name.as_str())).len() == 0 {
        return None;
    }
    if excluded(ex, &name) {
        return None;
    }
    let num: u32 = match field_entry(tree, p, "Num") {
        Some(LogEntry::Int(i)) => if *i >= 0 {
            (*i % 0x1_0000_0000) as u32
        } else {
            0
        },
        _ => 0,
    };
    let taxed = tax_applies(tax_enabled, &id);
    Some(PickedDrop { base_id: id, num, taxed })
}

/// The drops that a parsed drop record holds, in the order a depth-first walk over its
/// objects (members in key order) meets them.
pub fn collect_drops(
    data: &LogTree,
    id_table: &Vec<PriceTableEntry>,
    tax_enabled: bool,
    exclude_list: &Vec<String>,
) -> (r: Vec<PickedDrop>)
    requires
        data.wf(),
    ensures
        drop_views(r@) == drops_in(
            data@,
            data.map(),
            table_view(id_table@),
            string_views(exclude_list@),
            tax_enabled,
        ),
{
    let mut r: Vec<PickedDrop> = Vec::new();
    let n = data.len();
    assert(data@.take(0) =~= Seq::<(Seq<Seq<char>>, EntryView)>::empty());
    for i in 0..n
        invariant
            n == data@.len(),
            data.wf(),
            drop_views(r@) == drops_in(
                data@.take(i as int),
                data.map(),
                table_view(id_table@),
                string_views(exclude_list@),
                tax_enabled,
            ),
    {
        let node = data.node(i);
        assert(data@.take(i + 1).drop_last() =~= data@.take(i as int));
        assert(data@.take(i + 1).last() == data@[i as int]);
        if node.entry.is_object() {
            match drop_at_node(data, &node.path, id_table, exclude_list, tax_enabled) {
                Some(d) => {
                    let ghost old_r = drop_views(r@);
                    r.push(d);
                    assert(drop_views(r@) =~= old_r.push(d@));
                },
                None => {},
            }
        }
    }
    assert(data@.take(n as int) =~= data@);
    r
}


/// How much of item `k` the drops add up to.
pub open spec fn total_for(ds: Seq<(Seq<char>, u32, bool)>, k: Seq<char>) -> int
    decreases ds.len(),
{
    if ds.len() == 0 {
        0
    } else {
        total_for(ds.drop_last(), k) + if ds.last().0 == k {
            ds.last().1 as int
        } else {
            0
        }
    }
}

/// Adding the drops to the counts `c` overflows no `u32` count.
pub open spec fn counts_fit(c: Map<Seq<char>, u32>, ds: Seq<(Seq<char>, u32, bool)>) -> bool {
    forall|k: Seq<char>| count_of(c, k) + #[trigger] total_for(ds, k) <= u32::MAX
}

/// The counts `c` after adding each drop in turn.
pub open spec fn tally(c: Map<Seq<char>, u32>, ds: Seq<(Seq<char>, u32, bool)>) -> Map<Seq<char>, u32>
    decreases ds.len(),
{
    if ds.len() == 0 {
        c
    } else {
        let prev = tally(c, ds.drop_last());
        let d = ds.last();
        prev.insert(d.0, (count_of(prev, d.0) + d.1) as u32)
    }
}

/// A prefix of the drops adds up to no more than all of them.
pub proof fn lemma_total_prefix(ds: Seq<(Seq<char>, u32, bool)>, j: int, k: Seq<char>)
    requires
        0 <= j <= ds.len(),
    ensures
        0 <= total_for(ds.take(j), k) <= total_for(ds, k),
    decreases ds.len(),
{
    if j == ds.len() {
        assert(ds.take(j) =~= ds);
        lemma_total_nonneg(ds, k);
    } else {
        lemma_total_prefix(ds.drop_last(), j, k);
        assert(ds.drop_last().take(j) =~= ds.take(j));
    }
}

/// What drops add for an item is never negative.
pub proof fn lemma_total_nonneg(ds: Seq<(Seq<char>, u32, bool)>, k: Seq<char>)
    ensures
        total_for(ds, k) >= 0,
    decreases ds.len(),
{
    if ds.len() > 0 {
        lemma_total_nonneg(ds.drop_last(), k);
    }
}

/// Law: when nothing overflows, each count after the drops is the count before plus what
/// the drops add for that item.
pub proof fn lemma_tally_counts(c: Map<Seq<char>, u32>, ds: Seq<(Seq<char>, u32, bool)>, k: Seq<char>)
    requires
        counts_fit(c, ds),
    ensures
        count_of(tally(c, ds), k) == count_of(c, k) + total_for(ds, k),
    decreases ds.len(),
{
    if ds.len() > 0 {
        let d = ds.last();
        assert forall|q: Seq<char>| count_of(c, q) + #[trigger] total_for(ds.drop_last(), q) <= u32::MAX by {
            lemma_total_prefix(ds, ds.len() - 1, q);
            assert(ds.take(ds.len() - 1) =~= ds.drop_last());
            assert(count_of(c, q) + total_for(ds, q) <= u32::MAX);
        }
        lemma_tally_counts(c, ds.drop_last(), k);
        lemma_tally_counts(c, ds.drop_last(), d.0);
        assert(count_of(c, d.0) + total_for(ds, d.0) <= u32::MAX);
    }
}

/// Adds the drops to `counts` one by one while no count overflows; says whether all fitted.
pub fn tally_drops(counts: &mut DropCounts, ds: &Vec<PickedDrop>) -> (r: bool)
    ensures
        r == counts_fit(old(counts)@, drop_views(ds@)),
        r ==> final(counts)@ == tally(old(counts)@, drop_views(ds@)),
{
    let ghost c0 = counts@;
    let ghost dv = drop_views(ds@);
    assert(c0 == old(counts)@);
    let n = ds.len();
    assert(dv.take(0) =~= Seq::<(Seq<char>, u32, bool)>::empty());
    for i in 0..n
        invariant
            n == ds.len(),
            dv == drop_views(ds@),
            c0 == old(counts)@,
            counts_fit(c0, dv.take(i as int)),
            counts@ == tally(c0, dv.take(i as int)),
    {
        let ghost t = dv.take(i + 1);
        assert(t.drop_last() =~= dv.take(i as int));
        assert(t.last() == ds@[i as int]@);
        let d = &ds[i];
        proof {
            lemma_tally_counts(c0, dv.take(i as int), d.base_id@);
        }
        if !counts.try_add(&d.base_id, d.num) {
            proof {
                lemma_total_prefix(dv, i + 1, d.base_id@);
                assert(!(count_of(c0, d.base_id@) + total_for(dv, d.base_id@) <= u32::MAX));
                assert(!counts_fit(c0, dv));
            }
            return false;
        }
        assert forall|k: Seq<char>| count_of(c0, k) + #[trigger] total_for(t, k) <= u32::MAX by {
            if k != d.base_id@ {
                assert(total_for(t, k) == total_for(dv.take(i as int), k));
            }
        }
    }
    assert(dv.take(n as int) =~= dv);
    true
}

/// Tallies of picked-up drops: those since the last map entry and those of all time.
pub struct DropProcessor {
    pub drop_list: DropCounts,
    pub drop_list_all: DropCounts,
}

impl DropProcessor {
    /// A processor with no counts.
    pub fn new() -> (r: DropProcessor)
        ensures
            r.drop_list@ == Map::<Seq<char>, u32>::empty(),
            r.drop_list_all@ == Map::<Seq<char>, u32>::empty(),
    {
        DropProcessor { drop_list: DropCounts::new(), drop_list_all: DropCounts::new() }
    }

    /// Adds the drops that a parsed drop record holds to both tallies, and returns them in
    /// the order they were met.
    pub fn process_drops(
        &mut self,
        data: &LogTree,
        id_table: &Vec<PriceTableEntry>,
        tax_enabled: bool,
        exclude_list: &Vec<String>,
    ) -> (r: Vec<PickedDrop>)
        requires
            data.wf(),
            counts_fit(
                old(self).drop_list@,
                drops_in(data@, data.map(), table_view(id_table@), string_views(exclude_list@), tax_enabled),
            ),
            counts_fit(
                old(self).drop_list_all@,
                drops_in(data@, data.map(), table_view(id_table@), string_views(exclude_list@), tax_enabled),
            ),
        ensures
            drop_views(r@) == drops_in(
                data@,
                data.map(),
                table_view(id_table@),
                string_views(exclude_list@),
                tax_enabled,
            ),
            final(self).drop_list@ == tally(old(self).drop_list@, drop_views(r@)),
            final(self).drop_list_all@ == tally(old(self).drop_list_all@, drop_views(r@)),
    {
        let ds = collect_drops(data, id_table, tax_enabled, exclude_list);
        let fits = tally_drops(&mut self.drop_list, &ds);
        assert(fits);
        let fits_all = tally_drops(&mut self.drop_list_all, &ds);
        assert(fits_all);
        ds
    }
}


/// What occurs in a text occurs in any text around it.
pub proof fn lemma_contains_extend(a: Seq<char>, b: Seq<char>, c: Seq<char>, p: Seq<char>)
    requires
        contains_seq(b, p),
    ensures
        contains_seq(a + b + c, p),
{
    let i = choose|i: int| crate::text::occurs_at(b, p, i);
    assert((a + b + c).subrange(a.len() + i, a.len() + i + p.len()) =~= b.subrange(i, i + p.len()));
    assert(crate::text::occurs_at(a + b + c, p, a.len() + i));
}

proof fn lemma_scan_lines_markers(lines: Seq<Seq<char>>)
    ensures
        forall|i: int| 0 <= i < scan_lines(lines).0.len() ==> contains_seq(#[trigger] scan_lines(lines).0[i], drop_start_marker())
            && contains_seq(scan_lines(lines).0[i], drop_end_marker()),
        scan_lines(lines).1 matches Some(cur) ==> contains_seq(cur, drop_start_marker()),
    decreases lines.len(),
{
    if lines.len() > 0 {
        lemma_scan_lines_markers(lines.drop_last());
        let st = scan_lines(lines.drop_last());
        let line = lines.last();
        match st.1 {
            None => {
                if contains_seq(line, drop_start_marker()) {
                    assert(line =~= Seq::<char>::empty() + line + Seq::<char>::empty());
                }
            },
            Some(cur) => {
                let joined = cur + seq!['\n'] + line;
                lemma_contains_extend(Seq::<char>::empty(), cur, seq!['\n'] + line, drop_start_marker());
                assert(Seq::<char>::empty() + cur + (seq!['\n'] + line) =~= joined);
                if contains_seq(line, drop_end_marker()) {
                    lemma_contains_extend(cur + seq!['\n'], line, Seq::<char>::empty(), drop_end_marker());
                    assert(cur + seq!['\n'] + line + Seq::<char>::empty() =~= joined);
                    let bs = st.0.push(joined);
                    assert forall|i: int| 0 <= i < bs.len() implies contains_seq(#[trigger] bs[i], drop_start_marker())
                        && contains_seq(bs[i], drop_end_marker()) by {
                        if i < st.0.len() {
                            assert(bs[i] == st.0[i]);
                        }
                    }
                }
            },
        }
    }
}

/// Law: every drop block holds the start marker, and every block but the last also holds
/// the end marker (the last may have run to the end of the text).
pub proof fn lemma_blocks_markers(text: Seq<char>)
    ensures
        forall|i: int| 0 <= i < spec_scan_drop_blocks(text).len() ==> contains_seq(#[trigger] spec_scan_drop_blocks(text)[i], drop_start_marker()),
        forall|i: int| 0 <= i < spec_scan_drop_blocks(text).len() - 1 ==> contains_seq(#[trigger] spec_scan_drop_blocks(text)[i], drop_end_marker()),
{
    let lines = split(text, '\n');
    lemma_scan_lines_markers(lines);
    let st = scan_lines(lines);
    let bs = spec_scan_drop_blocks(text);
    assert forall|i: int| 0 <= i < bs.len() implies contains_seq(#[trigger] bs[i], drop_start_marker()) by {
        if i < st.0.len() {
            assert(bs[i] == st.0[i]);
        }
    }
    assert forall|i: int| 0 <= i < bs.len() - 1 implies contains_seq(#[trigger] bs[i], drop_end_marker()) by {
        assert(bs[i] == st.0[i]);
    }
}


proof fn lemma_scan_lines_quiet(lines: Seq<Seq<char>>)
    requires
        forall|i: int| 0 <= i < lines.len() ==> !contains_seq(#[trigger] lines[i], drop_start_marker()),
    ensures
        scan_lines(lines) == (Seq::<Seq<char>>::empty(), None::<Seq<char>>),
    decreases lines.len(),
{
    if lines.len() > 0 {
        let dl = lines.drop_last();
        assert forall|i: int| 0 <= i < dl.len() implies !contains_seq(#[trigger] dl[i], drop_start_marker()) by {
            assert(dl[i] == lines[i]);
        }
        lemma_scan_lines_quiet(dl);
        assert(!contains_seq(lines[lines.len() - 1], drop_start_marker()));
    }
}

/// Law: a text without the start marker holds no drop block.
pub proof fn lemma_no_marker_no_blocks(text: Seq<char>)
    requires
        !contains_seq(text, drop_start_marker()),
    ensures
        spec_scan_drop_blocks(text).len() == 0,
{
    let lines = split(text, '\n');
    lemma_split_pieces(text, '\n');
    assert forall|i: int| 0 <= i < lines.len() implies !contains_seq(#[trigger] lines[i], drop_start_marker()) by {
        if contains_seq(lines[i], drop_start_marker()) {
            lemma_contains_trans(text, lines[i], drop_start_marker());
        }
    }
    lemma_scan_lines_quiet(lines);
}


/// Law: a drop's id and count come from its item's `SpecialInfo` object whenever that
/// object has the member, whatever the item itself holds; the item's own member counts
/// only where `SpecialInfo` lacks it.
pub proof fn lemma_special_info_first(
    m: Map<Seq<Seq<char>>, EntryView>,
    p: Seq<Seq<char>>,
    t: Seq<(Seq<char>, Seq<char>)>,
    ex: Seq<Seq<char>>,
    tax_enabled: bool,
)
    requires
        drop_at(m, p, t, ex, tax_enabled) is Some,
    ensures
        ({
            let d = drop_at(m, p, t, ex, tax_enabled)->0;
            let item = p.push("item"@);
            let special = item.push("SpecialInfo"@);
            let in_special = |name: Seq<char>| object_at(m, special) && m.dom().contains(special.push(name));
            &&& in_special("BaseId"@) ==> (m[special.push("BaseId"@)] matches EntryView::Int(i) && d.0
                == i64_text(i))
            &&& !in_special("BaseId"@) ==> m.dom().contains(item.push("BaseId"@)) && (m[item.push(
                "BaseId"@,
            )] matches EntryView::Int(i) && d.0 == i64_text(i))
            &&& in_special("Num"@) ==> d.1 == as_count(Some(m[special.push("Num"@)]))
            &&& !in_special("Num"@) ==> d.1 == as_count(entry_at(m, item.push("Num"@)))
        }),
{
}


/// A block's lines after the first hold no end marker, its first line holds the start
/// marker (the block is still open).
pub open spec fn open_block_lines(b: Seq<char>) -> bool {
    let ls = split(b, '\n');
    &&& contains_seq(ls[0], drop_start_marker())
    &&& forall|j: int| 0 < j < ls.len() ==> !contains_seq(#[trigger] ls[j], drop_end_marker())
}

/// A block with its start line, then lines without the end marker, then a last line with
/// it (the block is closed).
pub open spec fn closed_block_lines(b: Seq<char>) -> bool {
    let ls = split(b, '\n');
    &&& ls.len() >= 2
    &&& contains_seq(ls[0], drop_start_marker())
    &&& forall|j: int| 0 < j < ls.len() - 1 ==> !contains_seq(#[trigger] ls[j], drop_end_marker())
    &&& contains_seq(ls.last(), drop_end_marker())
}

proof fn lemma_scan_lines_shape(lines: Seq<Seq<char>>)
    requires
        forall|i: int, j: int| 0 <= i < lines.len() && 0 <= j < lines[i].len() ==> #[trigger] lines[i][j] != '\n',
    ensures
        forall|i: int| 0 <= i < scan_lines(lines).0.len() ==> closed_block_lines(#[trigger] scan_lines(lines).0[i]),
        scan_lines(lines).1 matches Some(cur) ==> open_block_lines(cur),
    decreases lines.len(),
{
    if lines.len() > 0 {
        let dl = lines.drop_last();
        assert forall|i: int, j: int| 0 <= i < dl.len() && 0 <= j < dl[i].len() implies #[trigger] dl[i][j] != '\n' by {
            assert(dl[i] == lines[i]);
        }
        lemma_scan_lines_shape(dl);
        let st = scan_lines(dl);
        let line = lines.last();
        assert forall|j: int| 0 <= j < line.len() implies line[j] != '\n' by {
            assert(line[j] == lines[lines.len() - 1][j]);
        }
        match st.1 {
            None => {
                if contains_seq(line, drop_start_marker()) {
                    lemma_split_plain(line, '\n');
                }
            },
            Some(cur) => {
                let joined = cur + seq!['\n'] + line;
                lemma_split_append_piece(cur, line, '\n');
                lemma_split_pieces(cur, '\n');
                let ls = split(cur, '\n');
                let js = split(joined, '\n');
                assert(js == ls.push(line));
                assert(js[0] == ls[0]);
                assert forall|j: int| 0 < j < js.len() - 1 implies !contains_seq(#[trigger] js[j], drop_end_marker()) by {
                    assert(js[j] == ls[j]);
                }
                if contains_seq(line, drop_end_marker()) {
                    let bs = st.0.push(joined);
                    assert forall|i: int| 0 <= i < bs.len() implies closed_block_lines(#[trigger] bs[i]) by {
                        if i < st.0.len() {
                            assert(bs[i] == st.0[i]);
                        }
                    }
                } else {
                    assert forall|j: int| 0 < j < js.len() implies !contains_seq(#[trigger] js[j], drop_end_marker()) by {
                        if j < js.len() - 1 {
                            assert(js[j] == ls[j]);
                        }
                    }
                }
            },
        }
    }
}

/// Law: a block runs from its start line to the first later line holding `Display:`
/// anywhere: no line of a block after its first holds the end marker except its last, and
/// every block but the last of the text ends with such a line.
pub proof fn lemma_blocks_close_at_first_end(text: Seq<char>)
    ensures
        forall|i: int| 0 <= i < spec_scan_drop_blocks(text).len() ==> {
            let ls = #[trigger] split(spec_scan_drop_blocks(text)[i], '\n');
            &&& contains_seq(ls[0], drop_start_marker())
            &&& forall|j: int| 0 < j < ls.len() - 1 ==> !contains_seq(#[trigger] ls[j], drop_end_marker())
        },
        forall|i: int| 0 <= i < spec_scan_drop_blocks(text).len() - 1 ==> {
            let ls = #[trigger] split(spec_scan_drop_blocks(text)[i], '\n');
            &&& ls.len() >= 2
            &&& contains_seq(ls.last(), drop_end_marker())
        },
{
    let lines = split(text, '\n');
    lemma_split_no_sep(text, '\n');
    lemma_scan_lines_shape(lines);
    let st = scan_lines(lines);
    let bs = spec_scan_drop_blocks(text);
    assert forall|i: int| 0 <= i < bs.len() implies {
        let ls = #[trigger] split(bs[i], '\n');
        &&& contains_seq(ls[0], drop_start_marker())
        &&& forall|j: int| 0 < j < ls.len() - 1 ==> !contains_seq(#[trigger] ls[j], drop_end_marker())
    } by {
        if i < st.0.len() {
            assert(bs[i] == st.0[i]);
            assert(closed_block_lines(st.0[i]));
        } else {
            assert(open_block_lines(bs[i]));
        }
    }
    assert forall|i: int| 0 <= i < bs.len() - 1 implies {
        let ls = #[trigger] split(bs[i], '\n');
        &&& ls.len() >= 2
        &&& contains_seq(ls.last(), drop_end_marker())
    } by {
        assert(bs[i] == st.0[i]);
        assert(closed_block_lines(st.0[i]));
    }
}

} // verus!
