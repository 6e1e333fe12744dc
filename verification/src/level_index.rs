//! The level-list index: for each vertex label and each depth, the list of
//! handles of the nodes that carry that label at that depth.
//!
//! The lists live in two levels of `hashbrown::HashMap`, label first. What
//! the maps do is taken on trust, from the small functions at the top of this
//! file; everything else here is proved from what those state.

use vstd::prelude::*;

verus! {

/// The lists of one label, keyed by depth.
#[verifier::external_body]
#[derive(Debug)]
pub struct LevelTable {
    inner: hashbrown::HashMap<u64, Vec<usize>>,
}

/// The level tables of all labels, keyed by label.
#[verifier::external_body]
#[derive(Debug)]
pub struct LabelTable {
    inner: hashbrown::HashMap<u64, LevelTable>,
}

/// What a level table holds: the list stored under each depth.
pub uninterp spec fn level_lists(table: LevelTable) -> Map<u64, Seq<usize>>;

/// What a label table holds: under each label, what its level table holds.
pub uninterp spec fn label_levels(table: LabelTable) -> Map<u64, Map<u64, Seq<usize>>>;

/// `hashbrown::HashMap::new`: a map that holds nothing.
#[verifier::external_body]
fn level_table_new() -> (table: LevelTable)
    ensures
        forall|level: u64| !level_lists(table).contains_key(level),
{
    LevelTable { inner: hashbrown::HashMap::new() }
}

/// `hashbrown::HashMap::get`: the list stored under `level`, or `None` where
/// the map has no such key.
#[verifier::external_body]
fn level_table_get(table: &LevelTable, level: u64) -> (list: Option<&Vec<usize>>)
    ensures
        match list {
            Some(l) => level_lists(*table).contains_key(level) && l@ == level_lists(*table)[level],
            None => !level_lists(*table).contains_key(level),
        },
{
    table.inner.get(&level)
}

/// `hashbrown::HashMap::insert`: afterwards the map holds `list` under
/// `level` and is unchanged at every other key.
#[verifier::external_body]
fn level_table_insert(table: &mut LevelTable, level: u64, list: Vec<usize>)
    ensures
        level_lists(*final(table)) == level_lists(*old(table)).insert(level, list@),
{
    table.inner.insert(level, list);
}

/// `hashbrown::HashMap::remove`: takes out and returns the list stored under
/// `level`, or returns `None` and changes nothing where the map has no such
/// key.
#[verifier::external_body]
fn level_table_remove(table: &mut LevelTable, level: u64) -> (list: Option<Vec<usize>>)
    ensures
        level_lists(*final(table)) == level_lists(*old(table)).remove(level),
        match list {
            Some(l) => level_lists(*old(table)).contains_key(level) && l@ == level_lists(
                *old(table),
            )[level],
            None => !level_lists(*old(table)).contains_key(level),
        },
{
    table.inner.remove(&level)
}

/// `hashbrown::HashMap::new`: a map that holds nothing.
#[verifier::external_body]
fn label_table_new() -> (table: LabelTable)
    ensures
        forall|label: u64| !label_levels(table).contains_key(label),
{
    LabelTable { inner: hashbrown::HashMap::new() }
}

/// `hashbrown::HashMap::get`: the level table stored under `label`, or
/// `None` where the map has no such key.
#[verifier::external_body]
fn label_table_get(table: &LabelTable, label: u64) -> (levels: Option<&LevelTable>)
    ensures
        match levels {
            Some(t) => label_levels(*table).contains_key(label) && level_lists(*t) == label_levels(
                *table,
            )[label],
            None => !label_levels(*table).contains_key(label),
        },
{
    table.inner.get(&label)
}

/// `hashbrown::HashMap::insert`: afterwards the map holds `levels` under
/// `label` and is unchanged at every other key.
#[verifier::external_body]
fn label_table_insert(table: &mut LabelTable, label: u64, levels: LevelTable)
    ensures
        label_levels(*final(table)) == label_levels(*old(table)).insert(
            label,
            level_lists(levels),
        ),
{
    table.inner.insert(label, levels);
}

/// `hashbrown::HashMap::remove`: takes out and returns the level table stored
/// under `label`, or returns `None` and changes nothing where the map has no
/// such key.
#[verifier::external_body]
fn label_table_remove(table: &mut LabelTable, label: u64) -> (levels: Option<LevelTable>)
    ensures
        label_levels(*final(table)) == label_levels(*old(table)).remove(label),
        match levels {
            Some(t) => label_levels(*old(table)).contains_key(label) && level_lists(t)
                == label_levels(*old(table))[label],
            None => !label_levels(*old(table)).contains_key(label),
        },
{
    table.inner.remove(&label)
}

/// The list that a two-level map holds for `label` at `level`: empty where
/// it holds none.
pub open spec fn list_at(matrix: Map<u64, Map<u64, Seq<usize>>>, label: u64, level: u64) -> Seq<
    usize,
> {
    if matrix.contains_key(label) && matrix[label].contains_key(level) {
        matrix[label][level]
    } else {
        Seq::empty()
    }
}

/// `k` is the position of the first occurrence of `node` in `list`.
pub open spec fn is_first(list: Seq<usize>, node: usize, k: int) -> bool {
    &&& 0 <= k < list.len()
    &&& list[k] == node
    &&& forall|j: int| 0 <= j < k ==> list[j] != node
}

/// The position of the first occurrence of `node` in `list`.
pub open spec fn first_position(list: Seq<usize>, node: usize) -> int {
    choose|k: int| is_first(list, node, k)
}

/// `a` stands somewhere before `b` in `list`.
pub open spec fn stands_before(list: Seq<usize>, a: usize, b: usize) -> bool {
    exists|i: int, j: int| 0 <= i < j < list.len() && list[i] == a && list[j] == b
}

/// Taking one entry out of a list without repetitions leaves exactly the
/// other entries, in the order that they had.
pub proof fn lemma_remove_entry(list: Seq<usize>, k: int)
    requires
        0 <= k < list.len(),
        list.no_duplicates(),
    ensures
        list.remove(k).no_duplicates(),
        forall|e: usize| #[trigger] list.remove(k).contains(e) <==> list.contains(e) && e != list[k],
        forall|a: usize, b: usize| #[trigger]
            stands_before(list.remove(k), a, b) <==> stands_before(list, a, b) && a != list[k] && b
                != list[k],
{
    let short = list.remove(k);
    assert forall|a: usize, b: usize| #[trigger]
        stands_before(short, a, b) <==> stands_before(list, a, b) && a != list[k] && b
            != list[k] by {
        if stands_before(short, a, b) {
            let (i, j) = choose|i: int, j: int|
                0 <= i < j < short.len() && short[i] == a && short[j] == b;
            let ii = if i < k { i } else { i + 1 };
            let jj = if j < k { j } else { j + 1 };
            assert(0 <= ii < jj < list.len() && list[ii] == a && list[jj] == b);
        }
        if stands_before(list, a, b) && a != list[k] && b != list[k] {
            let (i, j) = choose|i: int, j: int|
                0 <= i < j < list.len() && list[i] == a && list[j] == b;
            let ii = if i < k { i } else { i - 1 };
            let jj = if j < k { j } else { j - 1 };
            assert(0 <= ii < jj < short.len() && short[ii] == a && short[jj] == b);
        }
    }
    assert forall|x: int, y: int| 0 <= x < short.len() && 0 <= y < short.len() && x != y implies short[x]
        != short[y] by {
        let xx = if x < k { x } else { x + 1 };
        let yy = if y < k { y } else { y + 1 };
        assert(short[x] == list[xx] && short[y] == list[yy]);
    }
    assert forall|e: usize| #[trigger] short.contains(e) <==> list.contains(e) && e != list[k] by {
        if short.contains(e) {
            let x = choose|x: int| 0 <= x < short.len() && short[x] == e;
            let xx = if x < k { x } else { x + 1 };
            assert(list[xx] == e);
        }
        if list.contains(e) && e != list[k] {
            let x = choose|x: int| 0 <= x < list.len() && list[x] == e;
            let xx = if x < k { x } else { x - 1 };
            assert(short[xx] == e);
        }
    }
}

/// The index from (label, level) to the handles registered there.
#[derive(Debug)]
pub struct LevelListMap {
    matrix: LabelTable,
}

impl View for LevelListMap {
    type V = Map<u64, Map<u64, Seq<usize>>>;

    closed spec fn view(&self) -> Map<u64, Map<u64, Seq<usize>>> {
        label_levels(self.matrix)
    }
}

impl LevelListMap {
    /// The list registered for `label` at `level`; empty where there is none.
    pub open spec fn list(&self, label: u64, level: u64) -> Seq<usize> {
        list_at(self@, label, level)
    }

    /// An index that holds nothing.
    pub fn new() -> (index: LevelListMap)
        ensures
            index@ == Map::<u64, Map<u64, Seq<usize>>>::empty(),
            forall|label: u64, level: u64| index.list(label, level) == Seq::<usize>::empty(),
    {
        let index = LevelListMap { matrix: label_table_new() };
        assert(index@ =~= Map::<u64, Map<u64, Seq<usize>>>::empty());
        index
    }

    /// The lists of `label`, keyed by level, or `None` where the label has
    /// none.
    pub fn levels(&self, label: u64) -> (levels: Option<&LevelTable>)
        ensures
            match levels {
                Some(t) => self@.contains_key(label) && level_lists(*t) == self@[label],
                None => !self@.contains_key(label),
            },
    {
        label_table_get(&self.matrix, label)
    }

    /// The list registered for `label` at `level`, or `None` where there is
    /// none.
    pub fn level_list(&self, label: u64, level: u64) -> (list: Option<&Vec<usize>>)
        ensures
            match list {
                Some(l) => self@.contains_key(label) && self@[label].contains_key(level) && l@
                    == self.list(label, level),
                None => !(self@.contains_key(label) && self@[label].contains_key(level)),
            },
    {
        match self.levels(label) {
            Some(levels) => level_table_get(levels, level),
            None => None,
        }
    }

    /// A copy of the list registered for `label` at `level`; empty where
    /// there is none.
    pub fn query(&self, label: u64, level: u64) -> (list: Vec<usize>)
        ensures
            list@ == self.list(label, level),
    {
        let mut out: Vec<usize> = Vec::new();
        match self.level_list(label, level) {
            Some(stored) => {
                let mut i: usize = 0;
                while i < stored.len()
                    invariant
                        i <= stored.len(),
                        out@ == stored@.take(i as int),
                    decreases stored.len() - i,
                {
                    out.push(stored[i]);
                    assert(out@ =~= stored@.take(i + 1));
                    i += 1;
                }
                assert(stored@.take(i as int) =~= stored@);
            },
            None => {},
        }
        out
    }

    /// Registers `node` for `label` at `level`, at the end of the list, unless
    /// it is registered there already. Returns whether it was added.
    pub fn insert_node_set(&mut self, node: usize, label: u64, level: u64) -> (added: bool)
        ensures
            added == !old(self).list(label, level).contains(node),
            added ==> final(self).list(label, level) == old(self).list(label, level).push(node),
            !added ==> final(self).list(label, level) == old(self).list(label, level),
            forall|v: u64, d: u64|
                (v != label || d != level) ==> #[trigger] final(self).list(v, d) == old(self).list(
                    v,
                    d,
                ),
    {
        let ghost before = self@;
        let mut levels = match label_table_remove(&mut self.matrix, label) {
            Some(levels) => levels,
            None => level_table_new(),
        };
        let ghost row = level_lists(levels);
        let mut list = match level_table_remove(&mut levels, level) {
            Some(list) => list,
            None => Vec::with_capacity(1),
        };
        assert(list@ == list_at(before, label, level));
        let present = position_of(&list, node).is_some();
        if !present {
            list.push(node);
        }
        level_table_insert(&mut levels, level, list);
        label_table_insert(&mut self.matrix, label, levels);
        proof {
            let after = self@;
            assert(after.contains_key(label) && after[label].contains_key(level));
            assert forall|v: u64, d: u64| (v != label || d != level) implies #[trigger] list_at(
                after,
                v,
                d,
            ) == list_at(before, v, d) by {
                if v == label {
                    assert(after[label] == row.remove(level).insert(level, list@));
                    assert(after[label].contains_key(d) == row.contains_key(d));
                    if before.contains_key(label) {
                        assert(row == before[label]);
                    } else {
                        assert(!row.contains_key(d));
                    }
                } else {
                    assert(after.contains_key(v) == before.contains_key(v));
                }
            }
        }
        !present
    }

    /// Takes the first entry equal to `node` out of the list for `label` at
    /// `level`. Returns whether there was one.
    pub fn remove_node_set(&mut self, node: usize, label: u64, level: u64) -> (removed: bool)
        ensures
            removed == old(self).list(label, level).contains(node),
            removed ==> is_first(
                old(self).list(label, level),
                node,
                first_position(old(self).list(label, level), node),
            ),
            removed ==> final(self).list(label, level) == old(self).list(label, level).remove(
                first_position(old(self).list(label, level), node),
            ),
            !removed ==> final(self)@ == old(self)@,
            forall|v: u64, d: u64|
                (v != label || d != level) ==> #[trigger] final(self).list(v, d) == old(self).list(
                    v,
                    d,
                ),
    {
        let found = match self.level_list(label, level) {
            Some(list) => position_of(list, node),
            None => None,
        };
        match found {
            None => false,
            Some(pos) => {
                let ghost before = self@;
                let mut levels = match label_table_remove(&mut self.matrix, label) {
                    Some(levels) => levels,
                    None => level_table_new(),
                };
                let ghost row = level_lists(levels);
                let mut list = match level_table_remove(&mut levels, level) {
                    Some(list) => list,
                    None => Vec::new(),
                };
                list.remove(pos);
                level_table_insert(&mut levels, level, list);
                label_table_insert(&mut self.matrix, label, levels);
                proof {
                    let after = self@;
                    assert(row == before[label]);
                    assert(after[label] == row.remove(level).insert(level, list@));
                    assert forall|v: u64, d: u64|
                        (v != label || d != level) implies #[trigger] list_at(after, v, d)
                        == list_at(before, v, d) by {
                        if v == label {
                            assert(after[label].contains_key(d) == row.contains_key(d));
                        } else {
                            assert(after.contains_key(v) == before.contains_key(v));
                        }
                    }
                }
                true
            },
        }
    }
}

/// The position of the first entry of `list` equal to `node`.
pub fn position_of(list: &Vec<usize>, node: usize) -> (pos: Option<usize>)
    ensures
        match pos {
            Some(p) => p < list.len() && list@[p as int] == node && p == first_position(list@, node)
                && is_first(list@, node, p as int) && list@.contains(node),
            None => !list@.contains(node),
        },
{
    let mut i: usize = 0;
    while i < list.len()
        invariant
            i <= list.len(),
            forall|j: int| 0 <= j < i ==> list@[j] != node,
        decreases list.len() - i,
    {
        if list[i] == node {
            proof {
                assert(is_first(list@, node, i as int));
                let k = first_position(list@, node);
                assert(is_first(list@, node, k));
                if k < i {
                } else if k > i {
                }
            }
            return Some(i);
        }
        i += 1;
    }
    None
}

} // verus!
