//! The structured log text parser: pipe-prefixed lines of `+`-separated keys, optionally
//! followed by a bracketed value, turned into a nested record.

use vstd::prelude::*;
use crate::log_tree::{ensure_from, is_strict_prefix, replace_at, set_from, LogTree};
use crate::text::{
    chars_of, clean, clean_pieces, find_first, find_last, first_index, has_char, is_ws,
    last_index, lemma_remove_all_absent, lemma_remove_all_concat, lemma_remove_all_twice,
    lemma_split_pieces, lemma_trim_end_take, lemma_trim_start_skip, lemma_trim_ws_around,
    remove_all, remove_char, split, split_chars, sub_chars, trim, trim_end, trim_start,
    trimmed, views,
};
use crate::value::{parse_value, spec_parse_value, EntryView};

verus! {

/// The error type of the parser.
#[derive(Debug)]
pub enum LogParseError {
    InvalidStructure(String),
}

impl LogParseError {
    /// The error's message.
    pub fn message(&self) -> (r: String)
        ensures
            match self {
                LogParseError::InvalidStructure(m) => r@ == "Invalid log structure: "@ + m@,
            },
    {
        match self {
            LogParseError::InvalidStructure(m) => {
                let mut r = String::from_str("Invalid log structure: ");
                r.append(m.as_str());
                r
            },
        }
    }
}

/// A line's content: its pipes removed, then trimmed.
pub open spec fn line_content(line: Seq<char>) -> Seq<char> {
    trim(remove_all(line, '|'))
}

/// The content carries a bracketed value.
pub open spec fn is_valued(c: Seq<char>) -> bool {
    has_char(c, '[') && has_char(c, ']')
}

/// A line whose content carries brackets has its first `[` before its last `]`;
/// on any other bracketed line, slicing out the value panics.
pub open spec fn line_ok(line: Seq<char>) -> bool {
    let c = line_content(line);
    is_valued(c) ==> first_index(c, '[') < last_index(c, ']')
}

/// The keys of a line: the text split at `+`, each piece trimmed, the empty ones left out.
pub open spec fn keys_of(s: Seq<char>) -> Seq<Seq<char>> {
    clean_pieces(split(s, '+'))
}

/// What a line with content `c` does to the record. Every line works from the root: a line
/// with a bracketed value sets the value at its key path (the text before the first `[`),
/// any other line only creates the objects along its key path.
pub open spec fn content_effect(t: Map<Seq<Seq<char>>, EntryView>, c: Seq<char>) -> Map<
    Seq<Seq<char>>,
    EntryView,
> {
    if is_valued(c) {
        let bs = first_index(c, '[');
        let be = last_index(c, ']');
        set_from(t, keys_of(trim(c.take(bs))), 0, spec_parse_value(c.subrange(bs + 1, be)))
    } else {
        ensure_from(t, keys_of(c), 0)
    }
}

/// What one line does to the record: what its content does.
pub open spec fn line_effect(t: Map<Seq<Seq<char>>, EntryView>, line: Seq<char>) -> Map<
    Seq<Seq<char>>,
    EntryView,
> {
    content_effect(t, line_content(line))
}

/// The record that a sequence of lines builds, from the empty one.
pub open spec fn build(lines: Seq<Seq<char>>) -> Map<Seq<Seq<char>>, EntryView>
    decreases lines.len(),
{
    if lines.len() == 0 {
        Map::empty()
    } else {
        line_effect(build(lines.drop_last()), lines.last())
    }
}

/// The lines of a text: split at `\n`, trimmed, the empty ones left out.
pub open spec fn log_lines(text: Seq<char>) -> Seq<Seq<char>> {
    clean_pieces(split(text, '\n'))
}

/// The record that `convert_from_log_structure` builds from `text`.
pub open spec fn spec_convert(text: Seq<char>) -> Map<Seq<Seq<char>>, EntryView> {
    build(log_lines(text))
}

/// Every line of `text` can be converted without a panic.
pub open spec fn well_bracketed(text: Seq<char>) -> bool {
    forall|i: int| 0 <= i < log_lines(text).len() ==> line_ok(#[trigger] log_lines(text)[i])
}

/// Whether the line can be converted without a panic.
pub fn line_well_bracketed(line: &Vec<char>) -> (r: bool)
    ensures
        r == line_ok(line@),
{
    let c = trimmed(&remove_char(line, '|'));
    match (find_first(&c, '['), find_last(&c, ']')) {
        (Some(bs), Some(be)) => bs < be,
        _ => true,
    }
}

/// Applies one line to the record.
fn apply_line(tree: &mut LogTree, line: &Vec<char>)
    requires
        old(tree).wf(),
        line_ok(line@),
    ensures
        final(tree).wf(),
        final(tree).map() == line_effect(old(tree).map(), line@),
{
    let c = trimmed(&remove_char(line, '|'));
    match (find_first(&c, '['), find_last(&c, ']')) {
        (Some(bs), Some(be)) => {
            let key_part = trimmed(&sub_chars(&c, 0, bs));
            assert(c@.subrange(0, bs as int) =~= c@.take(bs as int));
            let value = parse_value(&sub_chars(&c, bs + 1, be));
            let keys = clean(&split_chars(&key_part, '+'));
            tree.set_path(&keys, value);
        },
        _ => {
            let keys = clean(&split_chars(&c, '+'));
            tree.ensure_path(&keys);
        },
    }
}

/// Converts structured log text (lines of `+`-separated keys, each optionally followed by a
/// bracketed value) into a nested record. Every line is read from the root: the pipes that
/// mark depth in the format are removed and do not nest one line under another.
pub fn convert_from_log_structure(log_text: &str) -> (r: Result<LogTree, LogParseError>)
    requires
        well_bracketed(log_text@),
    ensures
        r matches Ok(t) && t.wf() && t.map() == spec_convert(log_text@),
{
    let chars = chars_of(log_text);
    let lines = clean(&split_chars(&chars, '\n'));
    let ghost ls = views(lines@);
    assert(ls == log_lines(log_text@));
    let mut tree = LogTree::new();
    assert(tree.map() =~= build(ls.take(0)));
    let n = lines.len();
    for i in 0..n
        invariant
            n == lines.len(),
            ls == views(lines@),
            ls == log_lines(log_text@),
            well_bracketed(log_text@),
            tree.wf(),
            tree.map() == build(ls.take(i as int)),
    {
        assert(ls[i as int] == lines@[i as int]@);
        assert(line_ok(ls[i as int]));
        apply_line(&mut tree, &lines[i]);
        assert(ls.take(i + 1).drop_last() =~= ls.take(i as int));
    }
    assert(ls.take(n as int) =~= ls);
    Ok(tree)
}

/// Whether every line of `log_text` can be converted without a panic.
pub fn lines_well_bracketed(log_text: &str) -> (r: bool)
    ensures
        r == well_bracketed(log_text@),
{
    let chars = chars_of(log_text);
    let lines = clean(&split_chars(&chars, '\n'));
    let ghost ls = views(lines@);
    let n = lines.len();
    for i in 0..n
        invariant
            n == lines.len(),
            ls == views(lines@),
            ls == log_lines(log_text@),
            forall|j: int| 0 <= j < i ==> line_ok(#[trigger] ls[j]),
    {
        if !line_well_bracketed(&lines[i]) {
            assert(ls[i as int] == lines@[i as int]@);
            return false;
        }
    }
    true
}


/// Every node of the record has a key, and every proper prefix of a node's path holds an
/// object: the record is a tree of nested objects.
pub open spec fn is_tree(m: Map<Seq<Seq<char>>, EntryView>) -> bool {
    &&& forall|p: Seq<Seq<char>>| #[trigger] m.dom().contains(p) ==> p.len() > 0
    &&& forall|p: Seq<Seq<char>>, i: int|
        #![trigger m.dom().contains(p), p.take(i)]
        m.dom().contains(p) && 0 < i < p.len() ==> m.dom().contains(p.take(i)) && m[p.take(i)] is Object
}

proof fn lemma_insert_object_tree(t: Map<Seq<Seq<char>>, EntryView>, keys: Seq<Seq<char>>, i: int)
    requires
        is_tree(t),
        0 <= i < keys.len(),
        i > 0 ==> t.dom().contains(keys.take(i)) && t[keys.take(i)] is Object,
        !t.dom().contains(keys.take(i + 1)),
    ensures
        is_tree(t.insert(keys.take(i + 1), EntryView::Object)),
{
    let p = keys.take(i + 1);
    let t2 = t.insert(p, EntryView::Object);
    assert forall|q: Seq<Seq<char>>, j: int|
        #![trigger t2.dom().contains(q), q.take(j)]
        t2.dom().contains(q) && 0 < j < q.len() implies t2.dom().contains(q.take(j)) && t2[q.take(j)] is Object by {
        if q == p {
            assert(q.take(j) =~= keys.take(i).take(j));
            if j < i {
                assert(t.dom().contains(keys.take(i)));
            } else {
                assert(q.take(j) =~= keys.take(i));
            }
            assert(t.dom().contains(q.take(j)));
            assert(q.take(j) != p);
        } else {
            assert(t.dom().contains(q));
            assert(t.dom().contains(q.take(j)));
            if q.take(j) == p {
                assert(t.dom().contains(p));
            }
        }
    }
}

/// Walking down a key path keeps the record a tree.
pub proof fn lemma_ensure_from_tree(t: Map<Seq<Seq<char>>, EntryView>, keys: Seq<Seq<char>>, i: int)
    requires
        is_tree(t),
        0 <= i,
        0 < i <= keys.len() ==> t.dom().contains(keys.take(i)) && t[keys.take(i)] is Object,
    ensures
        is_tree(ensure_from(t, keys, i)),
    decreases keys.len() - i,
{
    if i < keys.len() {
        let p = keys.take(i + 1);
        if !t.dom().contains(p) {
            lemma_insert_object_tree(t, keys, i);
            lemma_ensure_from_tree(t.insert(p, EntryView::Object), keys, i + 1);
        } else if t[p] is Object {
            lemma_ensure_from_tree(t, keys, i + 1);
        }
    }
}

/// Setting a value at the end of a walk keeps the record a tree.
pub proof fn lemma_set_from_tree(t: Map<Seq<Seq<char>>, EntryView>, keys: Seq<Seq<char>>, i: int, v: EntryView)
    requires
        is_tree(t),
        0 <= i,
        0 < i <= keys.len() ==> t.dom().contains(keys.take(i)) && t[keys.take(i)] is Object,
    ensures
        is_tree(set_from(t, keys, i, v)),
    decreases keys.len() - i,
{
    if i < keys.len() {
        if i + 1 == keys.len() {
            let t2 = replace_at(t, keys, v);
            assert forall|q: Seq<Seq<char>>| #[trigger] t2.dom().contains(q) implies q.len() > 0 by {
                if q != keys {
                    assert(t.dom().contains(q));
                }
            }
            assert forall|q: Seq<Seq<char>>, j: int|
                #![trigger t2.dom().contains(q), q.take(j)]
                t2.dom().contains(q) && 0 < j < q.len() implies t2.dom().contains(q.take(j)) && t2[q.take(j)] is Object by {
                if q == keys {
                    if j < i {
                        assert(q.take(j) =~= keys.take(i).take(j));
                        assert(t.dom().contains(keys.take(i)));
                    } else {
                        assert(q.take(j) =~= keys.take(i));
                    }
                    assert(t.dom().contains(q.take(j)));
                    assert(q.take(j) != keys);
                    if is_strict_prefix(keys, q.take(j)) {
                        assert(keys.len() < q.take(j).len());
                    }
                } else {
                    assert(t.dom().contains(q));
                    assert(!is_strict_prefix(keys, q));
                    assert(t.dom().contains(q.take(j)));
                    if is_strict_prefix(keys, q.take(j)) {
                        assert(q.take(j).take(keys.len() as int) =~= q.take(keys.len() as int));
                        assert(is_strict_prefix(keys, q));
                    }
                    if q.take(j) == keys {
                        assert(q.take(keys.len() as int) =~= keys);
                        assert(is_strict_prefix(keys, q));
                    }
                }
            }
        } else {
            let p = keys.take(i + 1);
            if !t.dom().contains(p) {
                lemma_insert_object_tree(t, keys, i);
                lemma_set_from_tree(t.insert(p, EntryView::Object), keys, i + 1, v);
            } else if t[p] is Object {
                lemma_set_from_tree(t, keys, i + 1, v);
            }
        }
    }
}

/// Law: the converted record is a tree of nested objects, whatever the text.
pub proof fn lemma_convert_is_tree(text: Seq<char>)
    ensures
        is_tree(spec_convert(text)),
{
    lemma_build_tree(log_lines(text));
}

proof fn lemma_build_tree(lines: Seq<Seq<char>>)
    ensures
        is_tree(build(lines)),
    decreases lines.len(),
{
    if lines.len() == 0 {
        assert(build(lines) =~= Map::<Seq<Seq<char>>, EntryView>::empty());
    } else {
        lemma_build_tree(lines.drop_last());
        let t = build(lines.drop_last());
        let c = line_content(lines.last());
        if is_valued(c) {
            let bs = first_index(c, '[');
            let be = last_index(c, ']');
            lemma_set_from_tree(t, keys_of(trim(c.take(bs))), 0, spec_parse_value(c.subrange(bs + 1, be)));
        } else {
            lemma_ensure_from_tree(t, keys_of(c), 0);
        }
    }
}


/// No scalar sits on a proper prefix of `keys` longer than `i` keys.
pub open spec fn open_path(t: Map<Seq<Seq<char>>, EntryView>, keys: Seq<Seq<char>>, i: int) -> bool {
    forall|j: int| i < j < keys.len() ==> !(#[trigger] t.dom().contains(keys.take(j)) && !(t[keys.take(j)] is Object))
}

/// When no scalar is in the way, setting along `keys` leaves `v` at `keys`.
pub proof fn lemma_set_from_value(
    t: Map<Seq<Seq<char>>, EntryView>,
    keys: Seq<Seq<char>>,
    i: int,
    v: EntryView,
)
    requires
        0 <= i < keys.len(),
        open_path(t, keys, i),
    ensures
        set_from(t, keys, i, v).dom().contains(keys),
        set_from(t, keys, i, v)[keys] == v,
    decreases keys.len() - i,
{
    if i + 1 < keys.len() {
        let p = keys.take(i + 1);
        assert(t.dom().contains(p) ==> t[p] is Object);
        if !t.dom().contains(p) {
            let t2 = t.insert(p, EntryView::Object);
            assert forall|j: int| i + 1 < j < keys.len() implies !(#[trigger] t2.dom().contains(keys.take(j)) && !(t2[keys.take(j)] is Object)) by {
                assert(keys.take(j).len() != p.len());
                assert(t.dom().contains(keys.take(j)) ==> t[keys.take(j)] is Object);
            }
            lemma_set_from_value(t2, keys, i + 1, v);
        } else {
            lemma_set_from_value(t, keys, i + 1, v);
        }
    }
}

/// When no scalar is in the way, walking down `keys` leaves an object at every prefix.
pub proof fn lemma_ensure_from_objects(t: Map<Seq<Seq<char>>, EntryView>, keys: Seq<Seq<char>>, i: int)
    requires
        0 <= i <= keys.len(),
        open_path(t, keys, i),
        !t.dom().contains(keys) || t[keys] is Object,
        forall|j: int| 0 < j <= i ==> #[trigger] t.dom().contains(keys.take(j)) && t[keys.take(j)] is Object,
    ensures
        forall|j: int| 0 < j <= keys.len() ==> #[trigger] ensure_from(t, keys, i).dom().contains(keys.take(j))
            && ensure_from(t, keys, i)[keys.take(j)] is Object,
    decreases keys.len() - i,
{
    assert(keys.take(keys.len() as int) =~= keys);
    if i < keys.len() {
        let p = keys.take(i + 1);
        if i + 1 < keys.len() {
            assert(t.dom().contains(p) ==> t[p] is Object);
        } else {
            assert(p =~= keys);
        }
        if !t.dom().contains(p) {
            let t2 = t.insert(p, EntryView::Object);
            assert forall|j: int| i + 1 < j < keys.len() implies !(#[trigger] t2.dom().contains(keys.take(j)) && !(t2[keys.take(j)] is Object)) by {
                assert(keys.take(j).len() != p.len());
                assert(t.dom().contains(keys.take(j)) ==> t[keys.take(j)] is Object);
            }
            assert forall|j: int| 0 < j <= i + 1 implies #[trigger] t2.dom().contains(keys.take(j)) && t2[keys.take(j)] is Object by {
                if j <= i {
                    assert(t.dom().contains(keys.take(j)));
                }
            }
            if i + 1 < keys.len() {
                assert(keys.len() != p.len());
                assert(!t2.dom().contains(keys) || t2[keys] is Object);
            }
            lemma_ensure_from_objects(t2, keys, i + 1);
            assert(ensure_from(t, keys, i) == ensure_from(t2, keys, i + 1));
        } else {
            assert(t[p] is Object);
            assert forall|j: int| 0 < j <= i + 1 implies #[trigger] t.dom().contains(keys.take(j)) && t[keys.take(j)] is Object by {
                if j == i + 1 {
                    assert(keys.take(j) =~= p);
                } else {
                    assert(0 < j <= i);
                    assert(t.dom().contains(keys.take(j)));
                }
            }
            lemma_ensure_from_objects(t, keys, i + 1);
            assert(ensure_from(t, keys, i) == ensure_from(t, keys, i + 1));
        }
    } else {
        assert(ensure_from(t, keys, i) == t);
        assert forall|j: int| 0 < j <= keys.len() implies #[trigger] ensure_from(t, keys, i).dom().contains(keys.take(j))
            && ensure_from(t, keys, i)[keys.take(j)] is Object by {
            assert(t.dom().contains(keys.take(j)));
        }
    }
}

/// Law: after a line with a bracketed value and at least one key, that value is at the
/// line's key path, unless a scalar stood on the way there.
pub proof fn lemma_valued_line_sets_value(t: Map<Seq<Seq<char>>, EntryView>, line: Seq<char>)
    requires
        is_valued(line_content(line)),
        keys_of(trim(line_content(line).take(first_index(line_content(line), '[')))).len() > 0,
        open_path(t, keys_of(trim(line_content(line).take(first_index(line_content(line), '[')))), 0),
    ensures
        ({
            let c = line_content(line);
            let keys = keys_of(trim(c.take(first_index(c, '['))));
            let v = spec_parse_value(c.subrange(first_index(c, '[') + 1, last_index(c, ']')));
            line_effect(t, line).dom().contains(keys) && line_effect(t, line)[keys] == v
        }),
{
    let c = line_content(line);
    let keys = keys_of(trim(c.take(first_index(c, '['))));
    let v = spec_parse_value(c.subrange(first_index(c, '[') + 1, last_index(c, ']')));
    lemma_set_from_value(t, keys, 0, v);
}

/// Law: after a line without a bracketed value, an object stands at every prefix of its key
/// path, unless a scalar stood on the way there.
pub proof fn lemma_key_line_makes_objects(t: Map<Seq<Seq<char>>, EntryView>, line: Seq<char>)
    requires
        !is_valued(line_content(line)),
        open_path(t, keys_of(line_content(line)), 0),
        !t.dom().contains(keys_of(line_content(line))) || t[keys_of(line_content(line))] is Object,
    ensures
        forall|j: int| 0 < j <= keys_of(line_content(line)).len() ==> #[trigger] line_effect(t, line).dom().contains(keys_of(line_content(line)).take(j))
            && line_effect(t, line)[keys_of(line_content(line)).take(j)] is Object,
{
    let keys = keys_of(line_content(line));
    lemma_ensure_from_objects(t, keys, 0);
    assert(line_effect(t, line) == ensure_from(t, keys, 0));
    assert forall|j: int| 0 < j <= keys.len() implies #[trigger] line_effect(t, line).dom().contains(keys.take(j))
        && line_effect(t, line)[keys.take(j)] is Object by {
        assert(ensure_from(t, keys, 0).dom().contains(keys.take(j)));
    }
}


/// The contents of the lines that have any, in order.
pub open spec fn contents(lines: Seq<Seq<char>>) -> Seq<Seq<char>>
    decreases lines.len(),
{
    if lines.len() == 0 {
        Seq::empty()
    } else {
        let rest = contents(lines.drop_last());
        let c = line_content(lines.last());
        if c.len() > 0 {
            rest.push(c)
        } else {
            rest
        }
    }
}

/// The record that a sequence of line contents builds, from the empty one.
pub open spec fn build_contents(cs: Seq<Seq<char>>) -> Map<Seq<Seq<char>>, EntryView>
    decreases cs.len(),
{
    if cs.len() == 0 {
        Map::empty()
    } else {
        content_effect(build_contents(cs.drop_last()), cs.last())
    }
}

/// A line without content changes nothing.
proof fn lemma_empty_content(t: Map<Seq<Seq<char>>, EntryView>)
    ensures
        content_effect(t, Seq::<char>::empty()) == t,
{
    let e = Seq::<char>::empty();
    assert(!has_char(e, '['));
    assert(split(e, '+') == seq![e]);
    assert(trim_start(e) == e);
    assert(trim_end(e) == e);
    assert(seq![e].drop_last() =~= Seq::<Seq<char>>::empty());
    assert(clean_pieces(seq![e]) == clean_pieces(Seq::<Seq<char>>::empty()));
    assert(keys_of(e).len() == 0);
}

/// The record depends only on the lines' contents.
proof fn lemma_build_contents(lines: Seq<Seq<char>>)
    ensures
        build(lines) == build_contents(contents(lines)),
    decreases lines.len(),
{
    if lines.len() > 0 {
        lemma_build_contents(lines.drop_last());
        let c = line_content(lines.last());
        if c.len() > 0 {
            let cs = contents(lines.drop_last()).push(c);
            assert(cs.drop_last() =~= contents(lines.drop_last()));
        } else {
            assert(c =~= Seq::<char>::empty());
            lemma_empty_content(build(lines.drop_last()));
        }
    }
}

/// Trimming a line first does not change its content.
proof fn lemma_line_content_trim(p: Seq<char>)
    ensures
        line_content(trim(p)) == line_content(p),
{
    let k = lemma_trim_start_skip(p);
    let q = p.skip(k);
    let k2 = lemma_trim_end_take(q);
    let m = q.take(k2);
    let w1 = p.take(k);
    let w2 = q.skip(k2);
    assert(p =~= w1 + m + w2);
    assert(trim(p) == m);
    assert forall|i: int| 0 <= i < w1.len() implies w1[i] != '|' by {
        assert(is_ws(w1[i]));
    }
    assert forall|i: int| 0 <= i < w2.len() implies w2[i] != '|' by {
        assert(is_ws(w2[i]));
    }
    lemma_remove_all_absent(w1, '|');
    lemma_remove_all_absent(w2, '|');
    lemma_remove_all_concat(w1 + m, w2, '|');
    lemma_remove_all_concat(w1, m, '|');
    lemma_trim_ws_around(w1, remove_all(m, '|'), w2);
}

/// Trimming and dropping empty pieces does not change the contents.
proof fn lemma_contents_clean(ps: Seq<Seq<char>>)
    ensures
        contents(clean_pieces(ps)) == contents(ps),
    decreases ps.len(),
{
    if ps.len() > 0 {
        lemma_contents_clean(ps.drop_last());
        let p = ps.last();
        let t = trim(p);
        lemma_line_content_trim(p);
        let rest = clean_pieces(ps.drop_last());
        if t.len() > 0 {
            assert(rest.push(t).drop_last() =~= rest);
        } else {
            assert(t =~= Seq::<char>::empty());
            assert(remove_all(t, '|') == t);
            assert(trim_start(t) == t);
            assert(line_content(p).len() == 0);
        }
    }
}

/// Each piece with its `|` removed.
pub open spec fn pipes_removed(ps: Seq<Seq<char>>) -> Seq<Seq<char>> {
    ps.map_values(|p: Seq<char>| remove_all(p, '|'))
}

/// Removing `|` from each line does not change the contents.
proof fn lemma_contents_pipes_removed(ps: Seq<Seq<char>>)
    ensures
        contents(pipes_removed(ps)) == contents(ps),
    decreases ps.len(),
{
    if ps.len() > 0 {
        lemma_contents_pipes_removed(ps.drop_last());
        assert(pipes_removed(ps).drop_last() =~= pipes_removed(ps.drop_last()));
        lemma_remove_all_twice(ps.last(), '|');
    }
}

/// Removing `|` from a text removes it from each of its lines.
proof fn lemma_split_pipes_removed(text: Seq<char>)
    ensures
        split(remove_all(text, '|'), '\n') == pipes_removed(split(text, '\n')),
    decreases text.len(),
{
    let ps = split(text, '\n');
    if text.len() == 0 {
        assert(remove_all(text, '|') == text);
        assert(pipes_removed(ps) =~= ps);
        assert(remove_all(ps[0], '|') == ps[0]);
    } else {
        let dl = text.drop_last();
        let x = text.last();
        let prev = split(dl, '\n');
        lemma_split_pipes_removed(dl);
        lemma_split_pieces(dl, '\n');
        let r = remove_all(dl, '|');
        if x == '|' {
            assert(pipes_removed(ps) =~= pipes_removed(prev)) by {
                let l = prev.last();
                assert(l.push(x).drop_last() =~= l);
                assert(remove_all(l.push(x), '|') == remove_all(l, '|'));
            }
        } else if x == '\n' {
            assert(r.push(x).drop_last() =~= r);
            assert(remove_all(Seq::<char>::empty(), '|') == Seq::<char>::empty());
            assert(pipes_removed(ps) =~= pipes_removed(prev).push(Seq::<char>::empty()));
        } else {
            assert(r.push(x).drop_last() =~= r);
            let l = prev.last();
            assert(l.push(x).drop_last() =~= l);
            assert(remove_all(l.push(x), '|') == remove_all(l, '|').push(x));
            let rs = split(r, '\n');
            assert(rs.last() == remove_all(l, '|'));
            assert(pipes_removed(ps) =~= rs.update(rs.len() - 1, rs.last().push(x)));
        }
    }
}

/// Law: the `|` markers never change the record: the text with every `|` removed converts
/// to the same record.
pub proof fn lemma_pipes_do_not_matter(text: Seq<char>)
    ensures
        spec_convert(remove_all(text, '|')) == spec_convert(text),
{
    let ps = split(text, '\n');
    let qs = split(remove_all(text, '|'), '\n');
    lemma_split_pipes_removed(text);
    lemma_build_contents(log_lines(text));
    lemma_build_contents(log_lines(remove_all(text, '|')));
    lemma_contents_clean(ps);
    lemma_contents_clean(qs);
    lemma_contents_pipes_removed(ps);
}

} // verus!
