//! The document tree and its read-only queries.
//!
//! A document owns its blocks; a block owns its items, loops and frames; a
//! frame owns its items and loops. Every query is total: what is not there
//! comes back as `None` or as an empty result.
use vstd::prelude::*;
use crate::text::same_text;
use crate::value::{CifValue, CifValueModel};

verus! {

/// Tabular data: column tags and a row-major matrix of values.
#[derive(Debug, Clone)]
pub struct CifLoop {
    pub tags: Vec<String>,
    pub values: Vec<Vec<CifValue>>,
}

/// A named nested scope, `save_<name>` ... `save_`, inside a block.
#[derive(Debug, Clone)]
pub struct CifFrame {
    pub name: String,
    pub items: Vec<(String, CifValue)>,
    pub loops: Vec<CifLoop>,
}

/// One `data_<name>` section.
#[derive(Debug, Clone)]
pub struct CifBlock {
    pub name: String,
    pub items: Vec<(String, CifValue)>,
    pub loops: Vec<CifLoop>,
    pub frames: Vec<CifFrame>,
}

/// A parsed document: its blocks in the order they appear.
#[derive(Debug, Clone)]
pub struct CifDocument {
    pub blocks: Vec<CifBlock>,
}

/// A loop seen as its column tags and its rows of values.
pub struct LoopModel {
    pub tags: Seq<Seq<char>>,
    pub rows: Seq<Seq<CifValueModel>>,
}

/// A frame seen as its name, its items and its loops.
pub struct FrameModel {
    pub name: Seq<char>,
    pub items: Seq<(Seq<char>, CifValueModel)>,
    pub loops: Seq<LoopModel>,
}

/// A block seen as its name, its items, its loops and its frames.
pub struct BlockModel {
    pub name: Seq<char>,
    pub items: Seq<(Seq<char>, CifValueModel)>,
    pub loops: Seq<LoopModel>,
    pub frames: Seq<FrameModel>,
}

/// An item list seen as pairs of key and value.
pub open spec fn items_view(items: Seq<(String, CifValue)>) -> Seq<(Seq<char>, CifValueModel)> {
    items.map_values(|p: (String, CifValue)| (p.0@, p.1@))
}

impl View for CifLoop {
    type V = LoopModel;

    open spec fn view(&self) -> LoopModel {
        LoopModel {
            tags: self.tags@.map_values(|s: String| s@),
            rows: self.values@.map_values(|r: Vec<CifValue>| r@.map_values(|v: CifValue| v@)),
        }
    }
}

impl View for CifFrame {
    type V = FrameModel;

    open spec fn view(&self) -> FrameModel {
        FrameModel {
            name: self.name@,
            items: items_view(self.items@),
            loops: self.loops@.map_values(|l: CifLoop| l@),
        }
    }
}

impl View for CifBlock {
    type V = BlockModel;

    open spec fn view(&self) -> BlockModel {
        BlockModel {
            name: self.name@,
            items: items_view(self.items@),
            loops: self.loops@.map_values(|l: CifLoop| l@),
            frames: self.frames@.map_values(|f: CifFrame| f@),
        }
    }
}

impl View for CifDocument {
    type V = Seq<BlockModel>;

    open spec fn view(&self) -> Seq<BlockModel> {
        self.blocks@.map_values(|b: CifBlock| b@)
    }
}

/// Whether, in one scope, a tag names at most one loop column, and no
/// item key is also a loop tag.
pub open spec fn tags_exclusive(items: Seq<(Seq<char>, CifValueModel)>, loops: Seq<LoopModel>) -> bool {
    &&& forall|k: int, a: int, m: int, b: int|
        0 <= k < loops.len() && 0 <= m < loops.len() && 0 <= a < loops[k].tags.len() && 0 <= b
            < loops[m].tags.len() && (k != m || a != b) ==> #[trigger] loops[k].tags[a]
            != #[trigger] loops[m].tags[b]
    &&& forall|i: int, k: int, a: int|
        0 <= i < items.len() && 0 <= k < loops.len() && 0 <= a < loops[k].tags.len() ==> #[trigger] items[i].0
            != #[trigger] loops[k].tags[a]
}

/// Whether the strings `ss` include one that reads `t`.
pub open spec fn has_text(ss: Seq<String>, t: Seq<char>) -> bool {
    exists|k: int| 0 <= k < ss.len() && (#[trigger] ss[k])@ == t
}

/// Whether `i` is the first position of `ss` whose string reads `t`.
pub open spec fn is_first_text(ss: Seq<String>, t: Seq<char>, i: int) -> bool {
    &&& 0 <= i < ss.len()
    &&& ss[i]@ == t
    &&& forall|k: int| 0 <= k < i ==> (#[trigger] ss[k])@ != t
}

/// The keys of an item list.
pub open spec fn item_keys(items: Seq<(String, CifValue)>) -> Seq<String> {
    items.map_values(|p: (String, CifValue)| p.0)
}

/// Whether no two items share a key.
pub open spec fn keys_unique(items: Seq<(String, CifValue)>) -> bool {
    forall|i: int, j: int|
        0 <= i < j < items.len() ==> (#[trigger] items[i]).0@ != (#[trigger] items[j]).0@
}

/// Whether every loop of `loops` is well formed.
pub open spec fn loops_wf(loops: Seq<CifLoop>) -> bool {
    forall|k: int| 0 <= k < loops.len() ==> (#[trigger] loops[k]).wf()
}

/// Where the key `t` stands in an item list.
fn find_key(items: &Vec<(String, CifValue)>, t: &str) -> (r: Option<usize>)
    ensures
        r is Some ==> is_first_text(item_keys(items@), t@, r->Some_0 as int),
        r is None ==> !has_text(item_keys(items@), t@),
{
    let mut k: usize = 0;
    while k < items.len()
        invariant
            k <= items@.len(),
            forall|m: int| 0 <= m < k ==> (#[trigger] item_keys(items@)[m])@ != t@,
        decreases items@.len() - k,
    {
        if same_text(t, &items[k].0) {
            return Some(k);
        }
        k = k + 1;
    }
    None
}

/// Where the tag `t` stands in a list of tags.
fn find_tag(tags: &Vec<String>, t: &str) -> (r: Option<usize>)
    ensures
        r is Some ==> is_first_text(tags@, t@, r->Some_0 as int),
        r is None ==> !has_text(tags@, t@),
{
    let mut k: usize = 0;
    while k < tags.len()
        invariant
            k <= tags@.len(),
            forall|m: int| 0 <= m < k ==> (#[trigger] tags@[m])@ != t@,
        decreases tags@.len() - k,
    {
        if same_text(t, &tags[k]) {
            return Some(k);
        }
        k = k + 1;
    }
    None
}

/// The value of the item `t` in an item list.
fn lookup_item<'a>(items: &'a Vec<(String, CifValue)>, t: &str) -> (r: Option<&'a CifValue>)
    ensures
        r is Some <==> has_text(item_keys(items@), t@),
        r is Some ==> exists|i: int|
            is_first_text(item_keys(items@), t@, i) && r->Some_0 == &items@[i].1,
{
    match find_key(items, t) {
        Some(i) => Some(&items[i].1),
        None => None,
    }
}

/// Copies of the items of a list.
fn copy_items(items: &Vec<(String, CifValue)>) -> (r: Vec<(String, CifValue)>)
    ensures
        r@.len() == items@.len(),
        forall|k: int|
            0 <= k < items@.len() ==> (#[trigger] r@[k]).0@ == items@[k].0@ && r@[k].1@
                == items@[k].1@,
{
    let mut r: Vec<(String, CifValue)> = Vec::new();
    let mut k: usize = 0;
    while k < items.len()
        invariant
            k <= items@.len(),
            r@.len() == k,
            forall|m: int|
                0 <= m < k ==> (#[trigger] r@[m]).0@ == items@[m].0@ && r@[m].1@
                    == items@[m].1@,
        decreases items@.len() - k,
    {
        r.push((items[k].0.clone(), items[k].1.duplicate()));
        k = k + 1;
    }
    r
}

/// The first loop of `loops` that has the column `t`.
fn first_loop_with<'a>(loops: &'a Vec<CifLoop>, t: &str) -> (r: Option<&'a CifLoop>)
    ensures
        r is None ==> forall|k: int| 0 <= k < loops@.len() ==> !has_text(
            (#[trigger] loops@[k]).tags@,
            t@,
        ),
        r is Some ==> exists|i: int|
            0 <= i < loops@.len() && r->Some_0 == &loops@[i] && has_text(loops@[i].tags@, t@)
                && forall|k: int| 0 <= k < i ==> !has_text((#[trigger] loops@[k]).tags@, t@),
{
    let mut k: usize = 0;
    while k < loops.len()
        invariant
            k <= loops@.len(),
            forall|m: int| 0 <= m < k ==> !has_text((#[trigger] loops@[m]).tags@, t@),
        decreases loops@.len() - k,
    {
        if find_tag(&loops[k].tags, t).is_some() {
            return Some(&loops[k]);
        }
        k = k + 1;
    }
    None
}

/// The tags of all loops, loop after loop.
pub open spec fn all_tags(loops: Seq<CifLoop>) -> Seq<Seq<char>>
    decreases loops.len(),
{
    if loops.len() == 0 {
        Seq::empty()
    } else {
        all_tags(loops.drop_last()) + loops.last().tags@.map_values(|t: String| t@)
    }
}

/// The entries of `s` without repeats, each where it first appears.
pub open spec fn first_appearances(s: Seq<Seq<char>>) -> Seq<Seq<char>>
    decreases s.len(),
{
    if s.len() == 0 {
        Seq::empty()
    } else {
        let f = first_appearances(s.drop_last());
        if f.contains(s.last()) {
            f
        } else {
            f.push(s.last())
        }
    }
}

/// The distinct tags of all loops, in the order they first appear.
fn distinct_loop_tags(loops: &Vec<CifLoop>) -> (r: Vec<String>)
    ensures
        r@.map_values(|t: String| t@) == first_appearances(all_tags(loops@)),
        forall|i: int, j: int| 0 <= i < j < r@.len() ==> (#[trigger] r@[i])@ != (#[trigger] r@[j])@,
        forall|t: Seq<char>|
            has_text(r@, t) <==> exists|k: int| 0 <= k < loops@.len() && has_text(
                (#[trigger] loops@[k]).tags@,
                t,
            ),
{
    let mut r: Vec<String> = Vec::new();
    let mut k: usize = 0;
    assert(r@.map_values(|t: String| t@) =~= first_appearances(all_tags(loops@.take(0))));
    while k < loops.len()
        invariant
            k <= loops@.len(),
            r@.map_values(|t: String| t@) == first_appearances(all_tags(loops@.take(k as int))),
            forall|i: int, j: int| 0 <= i < j < r@.len() ==> (#[trigger] r@[i])@ != (#[trigger] r@[j])@,
            forall|t: Seq<char>|
                has_text(r@, t) <==> exists|m: int| 0 <= m < k && has_text(
                    (#[trigger] loops@[m]).tags@,
                    t,
                ),
        decreases loops@.len() - k,
    {
        let tags = &loops[k].tags;
        let mut c: usize = 0;
        while c < tags.len()
            invariant
                k < loops@.len(),
                tags == &loops@[k as int].tags,
                c <= tags@.len(),
                r@.map_values(|t: String| t@) == first_appearances(
                    all_tags(loops@.take(k as int)) + tags@.map_values(|t: String| t@).take(c as int),
                ),
                forall|i: int, j: int|
                    0 <= i < j < r@.len() ==> (#[trigger] r@[i])@ != (#[trigger] r@[j])@,
                forall|t: Seq<char>|
                    has_text(r@, t) <==> (exists|m: int| 0 <= m < k && has_text(
                        (#[trigger] loops@[m]).tags@,
                        t,
                    )) || exists|d: int| 0 <= d < c && (#[trigger] tags@[d])@ == t,
            decreases tags@.len() - c,
        {
            let ghost old_r = r@;
            let ghost prefix = all_tags(loops@.take(k as int)) + tags@.map_values(|t: String| t@).take(c as int);
            let ghost next_prefix = all_tags(loops@.take(k as int)) + tags@.map_values(|t: String| t@).take(c + 1);
            let present = find_tag(&r, tags[c].as_str()).is_some();
            proof {
                assert(next_prefix.drop_last() =~= prefix);
                assert(next_prefix.last() == tags@[c as int]@);
                let fv = old_r.map_values(|t: String| t@);
                if fv.contains(tags@[c as int]@) {
                    let w = choose|w: int| 0 <= w < fv.len() && fv[w] == tags@[c as int]@;
                    assert(old_r[w]@ == tags@[c as int]@);
                }
                if present {
                    let w = choose|w: int| 0 <= w < old_r.len() && (#[trigger] old_r[w])@ == tags@[c as int]@;
                    assert(fv[w] == tags@[c as int]@);
                }
            }
            if !present {
                r.push(tags[c].clone());
            }
            assert(r@.map_values(|t: String| t@) =~= first_appearances(next_prefix));
            assert forall|t: Seq<char>| has_text(r@, t) <==> has_text(old_r, t) || t
                == tags@[c as int]@ by {
                if has_text(r@, t) {
                    let w = choose|w: int| 0 <= w < r@.len() && (#[trigger] r@[w])@ == t;
                    if w < old_r.len() {
                        assert(old_r[w] == r@[w]);
                    }
                }
                if has_text(old_r, t) {
                    let w = choose|w: int| 0 <= w < old_r.len() && (#[trigger] old_r[w])@ == t;
                    assert(r@[w] == old_r[w]);
                }
                if t == tags@[c as int]@ && !present {
                    assert(r@[old_r.len() as int] == tags@[c as int]);
                }
            }
            assert forall|t: Seq<char>|
                has_text(r@, t) <==> (exists|m: int| 0 <= m < k && has_text(
                    (#[trigger] loops@[m]).tags@,
                    t,
                )) || exists|d: int| 0 <= d < c + 1 && (#[trigger] tags@[d])@ == t by {
                let before = (exists|m: int| 0 <= m < k && has_text(
                    (#[trigger] loops@[m]).tags@,
                    t,
                )) || exists|d: int| 0 <= d < c && (#[trigger] tags@[d])@ == t;
                assert(has_text(old_r, t) == before);
                if exists|d: int| 0 <= d < c + 1 && (#[trigger] tags@[d])@ == t {
                    let d = choose|d: int| 0 <= d < c + 1 && (#[trigger] tags@[d])@ == t;
                    if d < c {
                        assert(before);
                    }
                }
                if exists|d: int| 0 <= d < c && (#[trigger] tags@[d])@ == t {
                    let d = choose|d: int| 0 <= d < c && (#[trigger] tags@[d])@ == t;
                    assert(0 <= d < c + 1 && tags@[d]@ == t);
                }
                if t == tags@[c as int]@ {
                    assert(0 <= c < c + 1 && tags@[c as int]@ == t);
                }
            }
            c = c + 1;
        }
        assert(loops@.take(k + 1).drop_last() =~= loops@.take(k as int));
        assert(all_tags(loops@.take(k + 1)) =~= all_tags(loops@.take(k as int)) + tags@.map_values(|t: String| t@).take(tags@.len() as int));
        assert forall|t: Seq<char>|
            has_text(r@, t) <==> exists|m: int| 0 <= m < k + 1 && has_text(
                (#[trigger] loops@[m]).tags@,
                t,
            ) by {
            if has_text(loops@[k as int].tags@, t) {
                let d = choose|d: int| 0 <= d < tags@.len() && (#[trigger] tags@[d])@ == t;
                assert(has_text(r@, t));
            }
        }
        k = k + 1;
    }
    assert(loops@.take(loops@.len() as int) =~= loops@);
    r
}

impl CifLoop {
    /// A loop is well formed when it has at least one column and every row
    /// has one value per column.
    pub open spec fn wf(&self) -> bool {
        &&& self.tags@.len() > 0
        &&& forall|r: int| 0 <= r < self.values@.len() ==> (#[trigger] self.values@[r])@.len()
            == self.tags@.len()
    }

    /// Whether the loop is well formed: at least one column, and one value
    /// per column in every row.
    pub fn is_well_formed(&self) -> (r: bool)
        ensures
            r == self.wf(),
    {
        if self.tags.len() == 0 {
            return false;
        }
        let mut row: usize = 0;
        while row < self.values.len()
            invariant
                row <= self.values@.len(),
                forall|q: int| 0 <= q < row ==> (#[trigger] self.values@[q])@.len() == self.tags@.len(),
            decreases self.values@.len() - row,
        {
            if self.values[row].len() != self.tags.len() {
                return false;
            }
            row = row + 1;
        }
        true
    }

    /// The number of rows.
    pub fn len(&self) -> (r: usize)
        ensures
            r == self.values@.len(),
    {
        self.values.len()
    }

    /// The number of columns.
    pub fn num_columns(&self) -> (r: usize)
        ensures
            r == self.tags@.len(),
    {
        self.tags.len()
    }

    /// Whether the loop has no rows.
    pub fn is_empty(&self) -> (r: bool)
        ensures
            r == (self.values@.len() == 0),
    {
        self.values.len() == 0
    }

    /// The value at a row and column, if both are in range.
    pub fn get(&self, row: usize, col: usize) -> (r: Option<&CifValue>)
        ensures
            r is Some <==> row < self.values@.len() && col < self.values@[row as int]@.len(),
            r is Some ==> r->Some_0 == &self.values@[row as int]@[col as int],
    {
        if row < self.values.len() && col < self.values[row].len() {
            Some(&self.values[row][col])
        } else {
            None
        }
    }

    /// The position of the column `tag`, if the loop has it.
    pub fn column_index(&self, tag: &str) -> (r: Option<usize>)
        ensures
            r is Some ==> is_first_text(self.tags@, tag@, r->Some_0 as int),
            r is None ==> !has_text(self.tags@, tag@),
    {
        find_tag(&self.tags, tag)
    }

    /// The value at a row in the column `tag`.
    pub fn get_by_tag(&self, row: usize, tag: &str) -> (r: Option<&CifValue>)
        ensures
            r is Some ==> exists|c: int|
                is_first_text(self.tags@, tag@, c) && row < self.values@.len() && c
                    < self.values@[row as int]@.len() && r->Some_0
                    == &self.values@[row as int]@[c],
            self.wf() ==> (r is Some <==> row < self.values@.len() && has_text(
                self.tags@,
                tag@,
            )),
    {
        match find_tag(&self.tags, tag) {
            Some(c) => self.get(row, c),
            None => None,
        }
    }

    /// Copies of the values of the column `tag`, one per row.
    pub fn get_column(&self, tag: &str) -> (r: Option<Vec<CifValue>>)
        requires
            self.wf(),
        ensures
            r is Some <==> has_text(self.tags@, tag@),
            r is Some ==> exists|c: int|
                #![trigger is_first_text(self.tags@, tag@, c)]
                is_first_text(self.tags@, tag@, c) && r->Some_0@.len() == self.values@.len()
                    && forall|row: int|
                    0 <= row < self.values@.len() ==> (#[trigger] r->Some_0@[row])@
                        == self.values@[row]@[c]@,
    {
        match find_tag(&self.tags, tag) {
            None => None,
            Some(c) => {
                let mut out: Vec<CifValue> = Vec::new();
                let mut row: usize = 0;
                while row < self.values.len()
                    invariant
                        self.wf(),
                        c < self.tags@.len(),
                        row <= self.values@.len(),
                        out@.len() == row,
                        forall|m: int|
                            0 <= m < row ==> (#[trigger] out@[m])@ == self.values@[m]@[c as int]@,
                    decreases self.values@.len() - row,
                {
                    assert(self.values@[row as int]@.len() == self.tags@.len());
                    out.push(self.values[row][c].duplicate());
                    row = row + 1;
                }
                Some(out)
            },
        }
    }

    /// The values of a row, in column order.
    pub fn get_row(&self, row: usize) -> (r: Option<&Vec<CifValue>>)
        ensures
            r is Some <==> row < self.values@.len(),
            r is Some ==> r->Some_0 == &self.values@[row as int],
    {
        if row < self.values.len() {
            Some(&self.values[row])
        } else {
            None
        }
    }

    /// A row as pairs of column tag and value, in column order.
    pub fn get_row_pairs(&self, row: usize) -> (r: Option<Vec<(String, CifValue)>>)
        requires
            self.wf(),
        ensures
            r is Some <==> row < self.values@.len(),
            r is Some ==> r->Some_0@.len() == self.tags@.len() && forall|c: int|
                0 <= c < self.tags@.len() ==> (#[trigger] r->Some_0@[c]).0@ == self.tags@[c]@
                    && r->Some_0@[c].1@ == self.values@[row as int]@[c]@,
    {
        if row >= self.values.len() {
            return None;
        }
        let mut out: Vec<(String, CifValue)> = Vec::new();
        let mut c: usize = 0;
        while c < self.tags.len()
            invariant
                self.wf(),
                row < self.values@.len(),
                c <= self.tags@.len(),
                out@.len() == c,
                forall|m: int|
                    0 <= m < c ==> (#[trigger] out@[m]).0@ == self.tags@[m]@ && out@[m].1@
                        == self.values@[row as int]@[m]@,
            decreases self.tags@.len() - c,
        {
            assert(self.values@[row as int]@.len() == self.tags@.len());
            out.push((self.tags[c].clone(), self.values[row][c].duplicate()));
            c = c + 1;
        }
        Some(out)
    }
}

impl CifFrame {
    /// A frame is well formed when its item keys are unique and its loops
    /// are well formed.
    pub open spec fn wf(&self) -> bool {
        keys_unique(self.items@) && loops_wf(self.loops@) && tags_exclusive(self@.items, self@.loops)
    }

    /// The value of the item `tag`.
    pub fn get_item(&self, tag: &str) -> (r: Option<&CifValue>)
        ensures
            r is Some <==> has_text(item_keys(self.items@), tag@),
            r is Some ==> exists|i: int|
                is_first_text(item_keys(self.items@), tag@, i) && r->Some_0
                    == &self.items@[i].1,
    {
        lookup_item(&self.items, tag)
    }

    /// Copies of all items.
    pub fn items(&self) -> (r: Vec<(String, CifValue)>)
        ensures
            r@.len() == self.items@.len(),
            forall|k: int|
                0 <= k < self.items@.len() ==> (#[trigger] r@[k]).0@ == self.items@[k].0@
                    && r@[k].1@ == self.items@[k].1@,
    {
        copy_items(&self.items)
    }

    /// The number of loops.
    pub fn num_loops(&self) -> (r: usize)
        ensures
            r == self.loops@.len(),
    {
        self.loops.len()
    }

    /// The loop at a position.
    pub fn get_loop(&self, index: usize) -> (r: Option<&CifLoop>)
        ensures
            r is Some <==> index < self.loops@.len(),
            r is Some ==> r->Some_0 == &self.loops@[index as int],
    {
        if index < self.loops.len() {
            Some(&self.loops[index])
        } else {
            None
        }
    }

    /// The first loop that has the column `tag`.
    pub fn find_loop(&self, tag: &str) -> (r: Option<&CifLoop>)
        ensures
            r is None ==> forall|k: int| 0 <= k < self.loops@.len() ==> !has_text(
                (#[trigger] self.loops@[k]).tags@,
                tag@,
            ),
            r is Some ==> exists|i: int|
                0 <= i < self.loops@.len() && r->Some_0 == &self.loops@[i] && has_text(
                    self.loops@[i].tags@,
                    tag@,
                ) && forall|k: int| 0 <= k < i ==> !has_text((#[trigger] self.loops@[k]).tags@, tag@),
    {
        first_loop_with(&self.loops, tag)
    }

    /// The distinct tags of all loops, in the order they first appear.
    pub fn get_loop_tags(&self) -> (r: Vec<String>)
        ensures
            r@.map_values(|t: String| t@) == first_appearances(all_tags(self.loops@)),
            forall|i: int, j: int| 0 <= i < j < r@.len() ==> (#[trigger] r@[i])@ != (#[trigger] r@[j])@,
            forall|t: Seq<char>|
                has_text(r@, t) <==> exists|k: int| 0 <= k < self.loops@.len() && has_text(
                    (#[trigger] self.loops@[k]).tags@,
                    t,
                ),
    {
        distinct_loop_tags(&self.loops)
    }
}

impl CifBlock {
    /// A block is well formed when its item keys are unique and its loops
    /// and frames are well formed.
    pub open spec fn wf(&self) -> bool {
        &&& keys_unique(self.items@)
        &&& loops_wf(self.loops@)
        &&& tags_exclusive(self@.items, self@.loops)
        &&& forall|k: int| 0 <= k < self.frames@.len() ==> (#[trigger] self.frames@[k]).wf()
    }

    /// The value of the item `tag`.
    pub fn get_item(&self, tag: &str) -> (r: Option<&CifValue>)
        ensures
            r is Some <==> has_text(item_keys(self.items@), tag@),
            r is Some ==> exists|i: int|
                is_first_text(item_keys(self.items@), tag@, i) && r->Some_0
                    == &self.items@[i].1,
    {
        lookup_item(&self.items, tag)
    }

    /// Copies of all items.
    pub fn items(&self) -> (r: Vec<(String, CifValue)>)
        ensures
            r@.len() == self.items@.len(),
            forall|k: int|
                0 <= k < self.items@.len() ==> (#[trigger] r@[k]).0@ == self.items@[k].0@
                    && r@[k].1@ == self.items@[k].1@,
    {
        copy_items(&self.items)
    }

    /// The number of loops.
    pub fn num_loops(&self) -> (r: usize)
        ensures
            r == self.loops@.len(),
    {
        self.loops.len()
    }

    /// The loop at a position.
    pub fn get_loop(&self, index: usize) -> (r: Option<&CifLoop>)
        ensures
            r is Some <==> index < self.loops@.len(),
            r is Some ==> r->Some_0 == &self.loops@[index as int],
    {
        if index < self.loops.len() {
            Some(&self.loops[index])
        } else {
            None
        }
    }

    /// The first loop that has the column `tag`.
    pub fn find_loop(&self, tag: &str) -> (r: Option<&CifLoop>)
        ensures
            r is None ==> forall|k: int| 0 <= k < self.loops@.len() ==> !has_text(
                (#[trigger] self.loops@[k]).tags@,
                tag@,
            ),
            r is Some ==> exists|i: int|
                0 <= i < self.loops@.len() && r->Some_0 == &self.loops@[i] && has_text(
                    self.loops@[i].tags@,
                    tag@,
                ) && forall|k: int| 0 <= k < i ==> !has_text((#[trigger] self.loops@[k]).tags@, tag@),
    {
        first_loop_with(&self.loops, tag)
    }

    /// The distinct tags of all loops, in the order they first appear.
    pub fn get_loop_tags(&self) -> (r: Vec<String>)
        ensures
            r@.map_values(|t: String| t@) == first_appearances(all_tags(self.loops@)),
            forall|i: int, j: int| 0 <= i < j < r@.len() ==> (#[trigger] r@[i])@ != (#[trigger] r@[j])@,
            forall|t: Seq<char>|
                has_text(r@, t) <==> exists|k: int| 0 <= k < self.loops@.len() && has_text(
                    (#[trigger] self.loops@[k]).tags@,
                    t,
                ),
    {
        distinct_loop_tags(&self.loops)
    }

    /// The number of frames.
    pub fn num_frames(&self) -> (r: usize)
        ensures
            r == self.frames@.len(),
    {
        self.frames.len()
    }

    /// The frame at a position.
    pub fn get_frame(&self, index: usize) -> (r: Option<&CifFrame>)
        ensures
            r is Some <==> index < self.frames@.len(),
            r is Some ==> r->Some_0 == &self.frames@[index as int],
    {
        if index < self.frames.len() {
            Some(&self.frames[index])
        } else {
            None
        }
    }
}

impl CifDocument {
    /// A document is well formed when each of its blocks is.
    pub open spec fn wf(&self) -> bool {
        forall|k: int| 0 <= k < self.blocks@.len() ==> (#[trigger] self.blocks@[k]).wf()
    }

    /// The number of blocks.
    pub fn len(&self) -> (r: usize)
        ensures
            r == self.blocks@.len(),
    {
        self.blocks.len()
    }

    /// The block at a position.
    pub fn get_block_at(&self, index: usize) -> (r: Option<&CifBlock>)
        ensures
            r is Some <==> index < self.blocks@.len(),
            r is Some ==> r->Some_0 == &self.blocks@[index as int],
    {
        if index < self.blocks.len() {
            Some(&self.blocks[index])
        } else {
            None
        }
    }

    /// The first block, in document order, with the name `name`.
    pub fn get_block(&self, name: &str) -> (r: Option<&CifBlock>)
        ensures
            r is Some <==> has_text(self.block_names_spec(), name@),
            r is Some ==> exists|i: int|
                is_first_text(self.block_names_spec(), name@, i) && r->Some_0
                    == &self.blocks@[i],
    {
        let mut k: usize = 0;
        while k < self.blocks.len()
            invariant
                k <= self.blocks@.len(),
                forall|m: int| 0 <= m < k ==> (#[trigger] self.block_names_spec()[m])@ != name@,
            decreases self.blocks@.len() - k,
        {
            if same_text(name, &self.blocks[k].name) {
                assert(is_first_text(self.block_names_spec(), name@, k as int));
                return Some(&self.blocks[k]);
            }
            k = k + 1;
        }
        None
    }

    /// The first block, if there is one.
    pub fn first_block(&self) -> (r: Option<&CifBlock>)
        ensures
            r is Some <==> self.blocks@.len() > 0,
            r is Some ==> r->Some_0 == &self.blocks@[0],
    {
        self.get_block_at(0)
    }

    /// The names of the blocks, in document order.
    pub open spec fn block_names_spec(&self) -> Seq<String> {
        self.blocks@.map_values(|b: CifBlock| b.name)
    }

    /// The names of the blocks, in document order.
    pub fn block_names(&self) -> (r: Vec<String>)
        ensures
            r@.len() == self.blocks@.len(),
            forall|k: int| 0 <= k < r@.len() ==> (#[trigger] r@[k])@ == self.blocks@[k].name@,
    {
        let mut out: Vec<String> = Vec::new();
        let mut k: usize = 0;
        while k < self.blocks.len()
            invariant
                k <= self.blocks@.len(),
                out@.len() == k,
                forall|m: int| 0 <= m < k ==> (#[trigger] out@[m])@ == self.blocks@[m].name@,
            decreases self.blocks@.len() - k,
        {
            out.push(self.blocks[k].name.clone());
            k = k + 1;
        }
        out
    }
}

} // verus!
