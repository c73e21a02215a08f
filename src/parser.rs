//! Assembling tokens into a document.
//!
//! `data_<name>` opens a block, `save_<name>` opens a frame inside it and a
//! bare `save_` closes that frame, `loop_` opens a loop, and a tag (a bare
//! token that begins with `_`) takes the value token that follows it.
use vstd::prelude::*;
use crate::error::CifError;
use crate::lexer::{copy_range, raw_model, scan, tokenize_chars, RawToken, TokenKind};
use crate::model::{
    items_view, tags_exclusive, keys_unique, loops_wf, BlockModel, CifBlock, CifDocument, CifFrame, CifLoop,
    FrameModel, LoopModel,
};
use crate::text::{at_line, chars_of, loop_count_message, string_of, token_message};
use crate::value::{classify_chars, classify_spec, CifValue, CifValueModel};

verus! {

pub open spec fn has_prefix(s: Seq<char>, p: Seq<char>) -> bool {
    p.len() <= s.len() && s.subrange(0, p.len() as int) == p
}

/// Whether a token is a tag: a bare token that begins with `_`.
pub open spec fn is_tag(t: RawToken) -> bool {
    t.kind == TokenKind::Bare && t.chars@.len() > 0 && t.chars@[0] == '_'
}

/// Whether a token is a structural keyword: `loop_`, or a bare token that
/// begins with `data_` or `save_`.
pub open spec fn is_keyword(t: RawToken) -> bool {
    t.kind == TokenKind::Bare && (t.chars@ == "loop_"@ || has_prefix(t.chars@, "data_"@)
        || has_prefix(t.chars@, "save_"@))
}

/// Whether a token can stand as a value.
pub open spec fn is_value(t: RawToken) -> bool {
    !is_tag(t) && !is_keyword(t)
}

/// Whether a token opens a data block.
pub open spec fn is_data_token(t: RawToken) -> bool {
    t.kind == TokenKind::Bare && has_prefix(t.chars@, "data_"@)
}

/// Whether a token opens or closes a save frame.
pub open spec fn is_save_token(t: RawToken) -> bool {
    t.kind == TokenKind::Bare && has_prefix(t.chars@, "save_"@)
}

/// Whether a token opens a loop.
pub open spec fn is_loop_token(t: RawToken) -> bool {
    t.kind == TokenKind::Bare && t.chars@ == "loop_"@
}

/// The end of the run of tag tokens that starts at `i`.
pub open spec fn tag_end(toks: Seq<RawToken>, i: int) -> int
    decreases toks.len() - i,
{
    if 0 <= i < toks.len() && is_tag(toks[i]) {
        tag_end(toks, i + 1)
    } else {
        i
    }
}

/// The end of the run of value tokens that starts at `i`.
pub open spec fn value_end(toks: Seq<RawToken>, i: int) -> int
    decreases toks.len() - i,
{
    if 0 <= i < toks.len() && is_value(toks[i]) {
        value_end(toks, i + 1)
    } else {
        i
    }
}

/// The loop whose first tag is at `start`, and the position after it: its
/// tags are the tag tokens from `start` on, its values are the value tokens
/// that follow them up to the next tag, keyword or the end, read row by
/// row. `None` when it has no tags or the values do not fill whole rows.
pub open spec fn loop_spec(toks: Seq<RawToken>, start: int) -> Option<(LoopModel, int)> {
    let te = tag_end(toks, start);
    let w = te - start;
    let ve = value_end(toks, te);
    let m = ve - te;
    if w <= 0 || m % w != 0 {
        None
    } else {
        Some(
            (
                LoopModel {
                    tags: Seq::new(w as nat, |k: int| toks[start + k].chars@),
                    rows: Seq::new(
                        (m / w) as nat,
                        |r: int| Seq::new(w as nat, |c: int| classify_spec(toks[te + r * w + c].chars@)),
                    ),
                },
                ve,
            ),
        )
    }
}

/// Whether `t` is a key of the items.
pub open spec fn key_in(items: Seq<(Seq<char>, CifValueModel)>, t: Seq<char>) -> bool {
    exists|k: int| 0 <= k < items.len() && (#[trigger] items[k]).0 == t
}

/// Whether `t` is a column tag of one of the loops.
pub open spec fn tag_in_loops(loops: Seq<LoopModel>, t: Seq<char>) -> bool {
    exists|k: int, j: int| 0 <= k < loops.len() && 0 <= j < loops[k].tags.len() && (#[trigger] loops[k].tags[j]) == t
}

/// Whether a new loop breaks the rule that a tag names at most one column
/// or item of a scope: it repeats a tag, or uses one that an item or
/// another loop of the scope already has.
pub open spec fn loop_clashes(items: Seq<(Seq<char>, CifValueModel)>, loops: Seq<LoopModel>, lp: LoopModel) -> bool {
    (exists|a: int, b: int| 0 <= a < b < lp.tags.len() && #[trigger] lp.tags[a] == #[trigger] lp.tags[b])
    || (exists|j: int| 0 <= j < lp.tags.len() && (key_in(items, #[trigger] lp.tags[j]) || tag_in_loops(loops, lp.tags[j])))
}

/// The first position of the key `key` from `k` on, or the length.
pub open spec fn key_pos(items: Seq<(Seq<char>, CifValueModel)>, key: Seq<char>, k: int) -> int
    decreases items.len() - k,
{
    if 0 <= k < items.len() {
        if items[k].0 == key {
            k
        } else {
            key_pos(items, key, k + 1)
        }
    } else {
        items.len() as int
    }
}

/// The items with `key` set to `v`: the earlier value of `key` is replaced,
/// or the pair is added at the end.
pub open spec fn set_items(items: Seq<(Seq<char>, CifValueModel)>, key: Seq<char>, v: CifValueModel) -> Seq<(Seq<char>, CifValueModel)> {
    let p = key_pos(items, key, 0);
    if 0 <= p < items.len() {
        items.update(p, (key, v))
    } else {
        items.push((key, v))
    }
}

/// Where the parse stands: the finished blocks, the open block (if
/// `have_block`) and the open frame (if `in_frame`).
pub struct ParseState {
    pub blocks: Seq<BlockModel>,
    pub block: BlockModel,
    pub have_block: bool,
    pub frame: FrameModel,
    pub in_frame: bool,
}

pub open spec fn empty_frame_model(name: Seq<char>) -> FrameModel {
    FrameModel { name, items: Seq::empty(), loops: Seq::empty() }
}

pub open spec fn empty_block_model(name: Seq<char>) -> BlockModel {
    BlockModel { name, items: Seq::empty(), loops: Seq::empty(), frames: Seq::empty() }
}

pub open spec fn start_state() -> ParseState {
    ParseState {
        blocks: Seq::empty(),
        block: empty_block_model(Seq::empty()),
        have_block: false,
        frame: empty_frame_model(Seq::empty()),
        in_frame: false,
    }
}

/// The finished blocks followed by the open one.
pub open spec fn closed_blocks(st: ParseState) -> Seq<BlockModel> {
    if st.have_block {
        st.blocks.push(st.block)
    } else {
        st.blocks
    }
}

/// The state after the item `key` = `v` in the open frame, or else in the
/// open block; `None` when a loop of that scope already has the tag.
pub open spec fn with_item(st: ParseState, key: Seq<char>, v: CifValueModel) -> Option<ParseState> {
    if st.in_frame {
        if tag_in_loops(st.frame.loops, key) {
            None
        } else {
            Some(ParseState { frame: FrameModel { items: set_items(st.frame.items, key, v), ..st.frame }, ..st })
        }
    } else {
        if tag_in_loops(st.block.loops, key) {
            None
        } else {
            Some(ParseState { block: BlockModel { items: set_items(st.block.items, key, v), ..st.block }, ..st })
        }
    }
}

/// The state after the loop `lp` in the open frame, or else in the open
/// block; `None` when the loop clashes with that scope.
pub open spec fn with_loop(st: ParseState, lp: LoopModel) -> Option<ParseState> {
    if st.in_frame {
        if loop_clashes(st.frame.items, st.frame.loops, lp) {
            None
        } else {
            Some(ParseState { frame: FrameModel { loops: st.frame.loops.push(lp), ..st.frame }, ..st })
        }
    } else {
        if loop_clashes(st.block.items, st.block.loops, lp) {
            None
        } else {
            Some(ParseState { block: BlockModel { loops: st.block.loops.push(lp), ..st.block }, ..st })
        }
    }
}

/// The blocks that the tokens from `i` on produce from the state `st`, or
/// `None` on a grammar violation: a `data_` or `save_` token without a name
/// where one is needed, a block opened while a frame is open, a frame
/// opened inside a frame or outside a block, a `save_` with no open frame,
/// a loop, tag or frame outside a block, a tag without a value token after
/// it, a loop rejected by `loop_spec` or `with_loop`, an item rejected by
/// `with_item`, a stray value token, or a frame still open at the end.
pub open spec fn parse_from(toks: Seq<RawToken>, i: int, st: ParseState) -> Option<Seq<BlockModel>>
    decreases toks.len() - i,
    via parse_from_decreases
{
    if i < 0 || i >= toks.len() {
        if st.in_frame {
            None
        } else {
            Some(closed_blocks(st))
        }
    } else {
        let t = toks[i];
        let c = t.chars@;
        if is_data_token(t) {
            if st.in_frame || c.len() <= 5 {
                None
            } else {
                parse_from(
                    toks,
                    i + 1,
                    ParseState {
                        blocks: closed_blocks(st),
                        block: empty_block_model(c.subrange(5, c.len() as int)),
                        have_block: true,
                        ..st
                    },
                )
            }
        } else if is_save_token(t) {
            if !st.have_block {
                None
            } else if c.len() <= 5 {
                if !st.in_frame {
                    None
                } else {
                    parse_from(
                        toks,
                        i + 1,
                        ParseState {
                            block: BlockModel { frames: st.block.frames.push(st.frame), ..st.block },
                            frame: empty_frame_model(Seq::empty()),
                            in_frame: false,
                            ..st
                        },
                    )
                }
            } else if st.in_frame {
                None
            } else {
                parse_from(
                    toks,
                    i + 1,
                    ParseState { frame: empty_frame_model(c.subrange(5, c.len() as int)), in_frame: true, ..st },
                )
            }
        } else if is_loop_token(t) {
            if !st.have_block {
                None
            } else {
                match loop_spec(toks, i + 1) {
                    None => None,
                    Some(found) => match with_loop(st, found.0) {
                        None => None,
                        Some(next_st) => parse_from(toks, found.1, next_st),
                    },
                }
            }
        } else if is_tag(t) {
            if !st.have_block || i + 1 >= toks.len() || !is_value(toks[i + 1]) {
                None
            } else {
                match with_item(st, c, classify_spec(toks[i + 1].chars@)) {
                    None => None,
                    Some(next_st) => parse_from(toks, i + 2, next_st),
                }
            }
        } else {
            None
        }
    }
}

/// An item read while a save frame is open goes into that frame with its
/// value, and leaves the enclosing block as it was.
pub proof fn lemma_frame_isolation(st: ParseState, key: Seq<char>, v: CifValueModel)
    requires
        st.in_frame,
        with_item(st, key, v) is Some,
    ensures
        with_item(st, key, v)->Some_0.block == st.block,
        with_item(st, key, v)->Some_0.in_frame,
        key_in(with_item(st, key, v)->Some_0.frame.items, key),
        exists|i: int|
            0 <= i < with_item(st, key, v)->Some_0.frame.items.len()
                && with_item(st, key, v)->Some_0.frame.items[i] == (key, v),
{
    let items = st.frame.items;
    let p = key_pos(items, key, 0);
    let ns = set_items(items, key, v);
    if 0 <= p < items.len() {
        assert(ns[p] == (key, v));
    } else {
        assert(ns[items.len() as int] == (key, v));
    }
}

proof fn lemma_tag_end(toks: Seq<RawToken>, i: int)
    requires
        0 <= i <= toks.len(),
    ensures
        i <= tag_end(toks, i) <= toks.len(),
        forall|k: int| i <= k < tag_end(toks, i) ==> is_tag(#[trigger] toks[k]),
        tag_end(toks, i) < toks.len() ==> !is_tag(toks[tag_end(toks, i)]),
    decreases toks.len() - i,
{
    if i < toks.len() && is_tag(toks[i]) {
        lemma_tag_end(toks, i + 1);
    }
}

proof fn lemma_value_end(toks: Seq<RawToken>, i: int)
    requires
        0 <= i <= toks.len(),
    ensures
        i <= value_end(toks, i) <= toks.len(),
        forall|k: int| i <= k < value_end(toks, i) ==> is_value(#[trigger] toks[k]),
    decreases toks.len() - i,
{
    if i < toks.len() && is_value(toks[i]) {
        lemma_value_end(toks, i + 1);
    }
}

#[via_fn]
proof fn parse_from_decreases(toks: Seq<RawToken>, i: int, st: ParseState) {
    if 0 <= i < toks.len() {
        lemma_tag_end(toks, i + 1);
        lemma_value_end(toks, tag_end(toks, i + 1));
    }
}

/// The sum of the lengths of the rows.
pub open spec fn total_cells(rows: Seq<Vec<CifValue>>) -> int
    decreases rows.len(),
{
    if rows.len() == 0 {
        0
    } else {
        total_cells(rows.drop_last()) + rows.last()@.len()
    }
}

/// A well-formed loop holds as many values as it has rows times columns,
/// and each row holds one value per column.
pub proof fn lemma_loop_rectangular(l: CifLoop)
    requires
        l.wf(),
    ensures
        total_cells(l.values@) == l.values@.len() * l.tags@.len(),
        forall|r: int| 0 <= r < l.values@.len() ==> (#[trigger] l.values@[r])@.len() == l.tags@.len(),
{
    lemma_rows_rectangular(l.values@, l.tags@.len() as int);
}

proof fn lemma_rows_rectangular(rows: Seq<Vec<CifValue>>, w: int)
    requires
        forall|r: int| 0 <= r < rows.len() ==> (#[trigger] rows[r])@.len() == w,
    ensures
        total_cells(rows) == rows.len() * w,
    decreases rows.len(),
{
    if rows.len() > 0 {
        let front = rows.drop_last();
        assert forall|r: int| 0 <= r < front.len() implies (#[trigger] front[r])@.len() == w by {
            assert(front[r] == rows[r]);
        }
        lemma_rows_rectangular(front, w);
        assert(rows.last() == rows[rows.len() - 1]);
        assert((rows.len() - 1) * w + w == rows.len() * w) by (nonlinear_arith);
    }
}

fn has_prefix_exec(s: &[char], p: &[char]) -> (r: bool)
    ensures
        r == has_prefix(s@, p@),
{
    if p.len() > s.len() {
        return false;
    }
    let mut k: usize = 0;
    while k < p.len()
        invariant
            p@.len() <= s@.len(),
            k <= p@.len(),
            forall|m: int| 0 <= m < k ==> s@[m] == p@[m],
        decreases p@.len() - k,
    {
        if s[k] != p[k] {
            assert(s@.subrange(0, p@.len() as int)[k as int] != p@[k as int]);
            return false;
        }
        k = k + 1;
    }
    assert(s@.subrange(0, p@.len() as int) =~= p@);
    true
}

fn is_tag_exec(t: &RawToken) -> (r: bool)
    ensures
        r == is_tag(*t),
{
    t.kind == TokenKind::Bare && t.chars.len() > 0 && t.chars[0] == '_'
}

fn is_loop_keyword(t: &RawToken) -> (r: bool)
    ensures
        r == (t.kind == TokenKind::Bare && t.chars@ == "loop_"@),
{
    proof {
        reveal_strlit("loop_");
    }
    let kw = ['l', 'o', 'o', 'p', '_'];
    assert(kw@ =~= "loop_"@);
    let r = t.kind == TokenKind::Bare && t.chars.len() == 5 && has_prefix_exec(t.chars.as_slice(), &kw);
    proof {
        if t.chars@.len() == 5 {
            assert(t.chars@ =~= t.chars@.subrange(0, 5));
        }
        if t.chars@ == kw@ {
            assert(t.chars@.len() == 5);
        }
    }
    r
}

fn is_data_keyword(t: &RawToken) -> (r: bool)
    ensures
        r == (t.kind == TokenKind::Bare && has_prefix(t.chars@, "data_"@)),
        r ==> t.chars@.len() >= 5,
{
    proof {
        reveal_strlit("data_");
    }
    let kw = ['d', 'a', 't', 'a', '_'];
    assert(kw@ =~= "data_"@);
    t.kind == TokenKind::Bare && has_prefix_exec(t.chars.as_slice(), &kw)
}

fn is_save_keyword(t: &RawToken) -> (r: bool)
    ensures
        r == (t.kind == TokenKind::Bare && has_prefix(t.chars@, "save_"@)),
        r ==> t.chars@.len() >= 5,
{
    proof {
        reveal_strlit("save_");
    }
    let kw = ['s', 'a', 'v', 'e', '_'];
    assert(kw@ =~= "save_"@);
    t.kind == TokenKind::Bare && has_prefix_exec(t.chars.as_slice(), &kw)
}

fn is_value_exec(t: &RawToken) -> (r: bool)
    ensures
        r == is_value(*t),
{
    !is_tag_exec(t) && !is_loop_keyword(t) && !is_data_keyword(t) && !is_save_keyword(t)
}


/// The loops of a list as models.
pub open spec fn loops_view(loops: Seq<CifLoop>) -> Seq<LoopModel> {
    loops.map_values(|l: CifLoop| l@)
}

/// The parse state that the parser's variables stand for.
pub open spec fn state_view(blocks: Seq<CifBlock>, block: CifBlock, have_block: bool, frame: CifFrame, in_frame: bool) -> ParseState {
    ParseState { blocks: blocks.map_values(|b: CifBlock| b@), block: block@, have_block, frame: frame@, in_frame }
}

/// Sets the item `key` to `value`, replacing an earlier value of that key.
fn set_item(items: &mut Vec<(String, CifValue)>, key: String, value: CifValue)
    requires
        keys_unique(old(items)@),
    ensures
        keys_unique(final(items)@),
        items_view(final(items)@) == set_items(items_view(old(items)@), key@, value@),
{
    let ghost v0 = items_view(items@);
    let mut k: usize = 0;
    while k < items.len()
        invariant
            keys_unique(items@),
            k <= items@.len(),
            items_view(items@) == v0,
            v0 == items_view(old(items)@),
            v0.len() == items@.len(),
            key_pos(v0, key@, k as int) == key_pos(v0, key@, 0),
            forall|m: int| 0 <= m < k ==> (#[trigger] v0[m]).0 != key@,
        decreases items@.len() - k,
    {
        if items[k].0 == key {
            assert(v0[k as int].0 == key@);
            assert(key_pos(v0, key@, k as int) == k as int);
            let ghost before = items@;
            items.set(k, (key, value));
            assert forall|i: int, j: int| 0 <= i < j < items@.len() implies (#[trigger] items@[i]).0@
                != (#[trigger] items@[j]).0@ by {
                if i == k {
                    assert(before[i].0@ == items@[i].0@);
                }
                if j == k {
                    assert(before[j].0@ == items@[j].0@);
                }
                assert(before[i].0@ != before[j].0@);
            }
            assert(items_view(items@) =~= v0.update(k as int, (key@, value@)));
            assert(v0 == items_view(old(items)@));
            assert(set_items(v0, key@, value@) == v0.update(k as int, (key@, value@)));
            return;
        }
        assert(v0[k as int].0 != key@);
        k = k + 1;
    }
    let ghost before = items@;
    items.push((key, value));
    assert forall|i: int, j: int| 0 <= i < j < items@.len() implies (#[trigger] items@[i]).0@
        != (#[trigger] items@[j]).0@ by {
        if j < before.len() {
            assert(before[i] == items@[i] && before[j] == items@[j]);
        } else {
            assert(before[i] == items@[i]);
            assert(v0[i].0 != key@);
        }
    }
    assert(items_view(items@) =~= v0.push((key@, value@)));
}

/// Whether `t` is a key of the items.
fn items_have_key(items: &Vec<(String, CifValue)>, t: &String) -> (r: bool)
    ensures
        r == key_in(items_view(items@), t@),
{
    let ghost v = items_view(items@);
    let mut k: usize = 0;
    while k < items.len()
        invariant
            k <= items@.len(),
            v == items_view(items@),
            forall|m: int| 0 <= m < k ==> (#[trigger] v[m]).0 != t@,
        decreases items@.len() - k,
    {
        if items[k].0 == *t {
            assert(v[k as int].0 == t@);
            return true;
        }
        k = k + 1;
    }
    false
}

/// Whether `t` is a column tag of one of the loops.
fn loops_have_tag(loops: &Vec<CifLoop>, t: &String) -> (r: bool)
    ensures
        r == tag_in_loops(loops_view(loops@), t@),
{
    let ghost v = loops_view(loops@);
    let mut k: usize = 0;
    while k < loops.len()
        invariant
            k <= loops@.len(),
            v == loops_view(loops@),
            forall|m: int, j: int| 0 <= m < k && 0 <= j < v[m].tags.len() ==> (#[trigger] v[m].tags[j]) != t@,
        decreases loops@.len() - k,
    {
        let tags = &loops[k].tags;
        assert(v[k as int] == loops@[k as int]@);
        let mut c: usize = 0;
        while c < tags.len()
            invariant
                k < loops@.len(),
                tags == &loops@[k as int].tags,
                v == loops_view(loops@),
                v[k as int] == loops@[k as int]@,
                c <= tags@.len(),
                forall|m: int, j: int| 0 <= m < k && 0 <= j < v[m].tags.len() ==> (#[trigger] v[m].tags[j]) != t@,
                forall|j: int| 0 <= j < c ==> (#[trigger] v[k as int].tags[j]) != t@,
            decreases tags@.len() - c,
        {
            if tags[c] == *t {
                assert(v[k as int].tags[c as int] == t@);
                return true;
            }
            c = c + 1;
        }
        k = k + 1;
    }
    false
}

/// Whether the loop `lp` clashes with a scope that holds `items` and `loops`.
fn clashes(items: &Vec<(String, CifValue)>, loops: &Vec<CifLoop>, lp: &CifLoop) -> (r: bool)
    ensures
        r == loop_clashes(items_view(items@), loops_view(loops@), lp@),
{
    let ghost ts = lp@.tags;
    let mut j: usize = 0;
    while j < lp.tags.len()
        invariant
            j <= lp.tags@.len(),
            ts == lp@.tags,
            ts.len() == lp.tags@.len(),
            forall|a: int, b: int| 0 <= a < b < j ==> #[trigger] ts[a] != #[trigger] ts[b],
            forall|x: int| 0 <= x < j ==> !key_in(items_view(items@), #[trigger] ts[x]) && !tag_in_loops(loops_view(loops@), ts[x]),
        decreases lp.tags@.len() - j,
    {
        let mut a: usize = 0;
        while a < j
            invariant
                j < lp.tags@.len(),
                a <= j,
                ts == lp@.tags,
                ts.len() == lp.tags@.len(),
                forall|x: int| 0 <= x < a ==> #[trigger] ts[x] != ts[j as int],
            decreases j - a,
        {
            if lp.tags[a] == lp.tags[j] {
                assert(ts[a as int] == ts[j as int]);
                return true;
            }
            a = a + 1;
        }
        if items_have_key(items, &lp.tags[j]) || loops_have_tag(loops, &lp.tags[j]) {
            assert(ts[j as int] == lp.tags@[j as int]@);
            return true;
        }
        j = j + 1;
    }
    false
}

/// Reads the loop whose first tag is at `start`, as `loop_spec` says.
fn parse_loop(toks: &Vec<RawToken>, start: usize, line: usize) -> (r: Result<(CifLoop, usize), CifError>)
    requires
        start <= toks@.len(),
    ensures
        r is Err ==> r->Err_0 is InvalidStructure,
        r is Ok <==> loop_spec(toks@, start as int) is Some,
        r is Ok ==> r->Ok_0.0.wf() && r->Ok_0.0@ == loop_spec(toks@, start as int)->Some_0.0
            && r->Ok_0.1 == loop_spec(toks@, start as int)->Some_0.1,
        r is Ok ==> start <= r->Ok_0.1 <= toks@.len(),
{
    let n = toks.len();
    let mut tags: Vec<String> = Vec::new();
    let mut j: usize = start;
    while j < n && is_tag_exec(&toks[j])
        invariant
            start <= j <= n == toks@.len(),
            tags@.len() == j - start,
            tag_end(toks@, j as int) == tag_end(toks@, start as int),
            forall|k: int| 0 <= k < tags@.len() ==> (#[trigger] tags@[k])@ == toks@[start + k].chars@,
        decreases n - j,
    {
        tags.push(string_of(toks[j].chars.as_slice()));
        j = j + 1;
    }
    let w = tags.len();
    if w == 0 {
        return Err(CifError::InvalidStructure(at_line("loop_ without tags", line)));
    }
    let first = j;
    while j < n && is_value_exec(&toks[j])
        invariant
            first <= j <= n == toks@.len(),
            value_end(toks@, j as int) == value_end(toks@, first as int),
        decreases n - j,
    {
        j = j + 1;
    }
    let count = j - first;
    if count % w != 0 {
        return Err(CifError::InvalidStructure(loop_count_message(count, w, line)));
    }
    let rows = count / w;
    assert(rows * w == count) by (nonlinear_arith)
        requires
            rows == count / w,
            count % w == 0,
            w > 0,
    ;
    let mut values: Vec<Vec<CifValue>> = Vec::new();
    let mut row: usize = 0;
    while row < rows
        invariant
            w == tags@.len() > 0,
            rows * w == count,
            first + count <= n == toks@.len(),
            row <= rows,
            values@.len() == row,
            forall|q: int| 0 <= q < row ==> (#[trigger] values@[q])@.len() == w,
            forall|q: int, col: int|
                0 <= q < row && 0 <= col < w ==> (#[trigger] values@[q]@[col])@
                    == classify_spec(toks@[first + q * w + col].chars@),
        decreases rows - row,
    {
        let mut cells: Vec<CifValue> = Vec::new();
        let mut col: usize = 0;
        assert(row * w + w <= count) by (nonlinear_arith)
            requires
                row < rows,
                rows * w == count,
        ;
        while col < w
            invariant
                w == tags@.len() > 0,
                row * w + w <= count,
                first + count <= n == toks@.len(),
                col <= w,
                cells@.len() == col,
                forall|c: int| 0 <= c < col ==> (#[trigger] cells@[c])@
                    == classify_spec(toks@[first + row * w + c].chars@),
            decreases w - col,
        {
            let at = first + row * w + col;
            cells.push(classify_chars(toks[at].chars.as_slice()));
            col = col + 1;
        }
        values.push(cells);
        row = row + 1;
    }
    let lp = CifLoop { tags, values };
    let ghost spec = loop_spec(toks@, start as int)->Some_0.0;
    assert(lp@.tags =~= spec.tags);
    assert forall|q: int| 0 <= q < rows implies #[trigger] lp@.rows[q] =~= spec.rows[q] by {
        assert(values@[q]@.len() == w);
    }
    assert(lp@.rows =~= spec.rows);
    Ok((lp, j))
}

fn empty_frame(name: String) -> (r: CifFrame)
    ensures
        r.wf(),
        r@ == empty_frame_model(name@),
{
    let r = CifFrame { name, items: Vec::new(), loops: Vec::new() };
    assert(r@.items =~= Seq::<(Seq<char>, CifValueModel)>::empty());
    assert(r@.loops =~= Seq::<LoopModel>::empty());
    r
}

fn empty_block(name: String) -> (r: CifBlock)
    ensures
        r.wf(),
        r@ == empty_block_model(name@),
{
    let r = CifBlock { name, items: Vec::new(), loops: Vec::new(), frames: Vec::new() };
    assert(r@.items =~= Seq::<(Seq<char>, CifValueModel)>::empty());
    assert(r@.loops =~= Seq::<LoopModel>::empty());
    assert(r@.frames =~= Seq::<FrameModel>::empty());
    r
}

proof fn lemma_loop_keeps_exclusive(
    items: Seq<(Seq<char>, CifValueModel)>,
    loops: Seq<LoopModel>,
    lm: LoopModel,
)
    requires
        tags_exclusive(items, loops),
        !loop_clashes(items, loops, lm),
    ensures
        tags_exclusive(items, loops.push(lm)),
{
    let ls = loops.push(lm);
    let last = loops.len() as int;
    assert forall|k: int, a: int, m: int, b: int|
        0 <= k < ls.len() && 0 <= m < ls.len() && 0 <= a < ls[k].tags.len() && 0 <= b < ls[m].tags.len()
            && (k != m || a != b) implies #[trigger] ls[k].tags[a] != #[trigger] ls[m].tags[b] by {
        if k == last && m == last {
            if a < b {
                assert(lm.tags[a] != lm.tags[b]);
            } else {
                assert(lm.tags[b] != lm.tags[a]);
            }
        } else if k == last {
            assert(!tag_in_loops(loops, lm.tags[a]));
            assert(ls[m] == loops[m]);
        } else if m == last {
            assert(!tag_in_loops(loops, lm.tags[b]));
            assert(ls[k] == loops[k]);
        } else {
            assert(ls[k] == loops[k] && ls[m] == loops[m]);
        }
    }
    assert forall|i: int, k: int, a: int|
        0 <= i < items.len() && 0 <= k < ls.len() && 0 <= a < ls[k].tags.len() implies #[trigger] items[i].0
            != #[trigger] ls[k].tags[a] by {
        if k == last {
            assert(!key_in(items, lm.tags[a]));
        } else {
            assert(ls[k] == loops[k]);
        }
    }
}

proof fn lemma_item_keeps_exclusive(
    items: Seq<(Seq<char>, CifValueModel)>,
    loops: Seq<LoopModel>,
    key: Seq<char>,
    v: CifValueModel,
)
    requires
        tags_exclusive(items, loops),
        !tag_in_loops(loops, key),
    ensures
        tags_exclusive(set_items(items, key, v), loops),
{
    let ns = set_items(items, key, v);
    let p = key_pos(items, key, 0);
    assert forall|i: int, k: int, a: int|
        0 <= i < ns.len() && 0 <= k < loops.len() && 0 <= a < loops[k].tags.len() implies #[trigger] ns[i].0
            != #[trigger] loops[k].tags[a] by {
        if (0 <= p < items.len() && i == p) || (!(0 <= p < items.len()) && i == items.len()) {
            assert(ns[i].0 == key);
        } else {
            assert(ns[i] == items[i]);
        }
    }
}

/// Adds an item to the open frame, or else to the open block, as
/// `with_item` says; false when it is refused.
fn add_item(
    block: &mut CifBlock,
    frame: &mut CifFrame,
    in_frame: bool,
    key: String,
    value: CifValue,
    Ghost(blocks): Ghost<Seq<BlockModel>>,
    Ghost(have_block): Ghost<bool>,
) -> (ok: bool)
    requires
        old(block).wf(),
        old(frame).wf(),
    ensures
        final(block).wf(),
        final(frame).wf(),
        ({
            let before = ParseState { blocks, block: old(block)@, have_block, frame: old(frame)@, in_frame };
            let after = ParseState { blocks, block: final(block)@, have_block, frame: final(frame)@, in_frame };
            &&& ok == with_item(before, key@, value@) is Some
            &&& ok ==> with_item(before, key@, value@)->Some_0 == after
        }),
{
    if in_frame {
        if loops_have_tag(&frame.loops, &key) {
            return false;
        }
        proof {
            lemma_item_keeps_exclusive(frame@.items, frame@.loops, key@, value@);
        }
        set_item(&mut frame.items, key, value);
    } else {
        if loops_have_tag(&block.loops, &key) {
            return false;
        }
        proof {
            lemma_item_keeps_exclusive(block@.items, block@.loops, key@, value@);
        }
        set_item(&mut block.items, key, value);
    }
    true
}

/// Adds a loop to the open frame, or else to the open block, as
/// `with_loop` says; false when it is refused.
fn add_loop(
    block: &mut CifBlock,
    frame: &mut CifFrame,
    in_frame: bool,
    lp: CifLoop,
    Ghost(blocks): Ghost<Seq<BlockModel>>,
    Ghost(have_block): Ghost<bool>,
) -> (ok: bool)
    requires
        old(block).wf(),
        old(frame).wf(),
        lp.wf(),
    ensures
        final(block).wf(),
        final(frame).wf(),
        ({
            let before = ParseState { blocks, block: old(block)@, have_block, frame: old(frame)@, in_frame };
            let after = ParseState { blocks, block: final(block)@, have_block, frame: final(frame)@, in_frame };
            &&& ok == with_loop(before, lp@) is Some
            &&& ok ==> with_loop(before, lp@)->Some_0 == after
        }),
{
    if in_frame {
        if clashes(&frame.items, &frame.loops, &lp) {
            return false;
        }
        let ghost lm = lp@;
        proof {
            lemma_loop_keeps_exclusive(frame@.items, frame@.loops, lm);
        }
        frame.loops.push(lp);
        assert(frame@.loops =~= old(frame)@.loops.push(lm));
        assert(loops_wf(frame.loops@)) by {
            assert forall|k: int| 0 <= k < frame.loops@.len() implies (#[trigger] frame.loops@[k]).wf() by {
                if k < frame.loops@.len() - 1 {
                    assert(frame.loops@[k] == old(frame).loops@[k]);
                }
            }
        }
    } else {
        if clashes(&block.items, &block.loops, &lp) {
            return false;
        }
        let ghost lm = lp@;
        proof {
            lemma_loop_keeps_exclusive(block@.items, block@.loops, lm);
        }
        block.loops.push(lp);
        assert(block@.loops =~= old(block)@.loops.push(lm));
        assert(loops_wf(block.loops@)) by {
            assert forall|k: int| 0 <= k < block.loops@.len() implies (#[trigger] block.loops@[k]).wf() by {
                if k < block.loops@.len() - 1 {
                    assert(block.loops@[k] == old(block).loops@[k]);
                }
            }
        }
    }
    true
}

proof fn lemma_push_view(blocks: Seq<CifBlock>, b: CifBlock)
    ensures
        blocks.push(b).map_values(|x: CifBlock| x@) == blocks.map_values(|x: CifBlock| x@).push(b@),
{
    assert(blocks.push(b).map_values(|x: CifBlock| x@) =~= blocks.map_values(|x: CifBlock| x@).push(b@));
}

/// Assemble tokens into a document, as `parse_from` says.
#[verifier::rlimit(40)]
pub fn parse_tokens(toks: &Vec<RawToken>) -> (r: Result<CifDocument, CifError>)
    ensures
        r is Err ==> r->Err_0 is InvalidStructure,
        r is Ok <==> parse_from(toks@, 0, start_state()) is Some,
        r is Ok ==> r->Ok_0.wf() && r->Ok_0@ == parse_from(toks@, 0, start_state())->Some_0,
{
    proof {
        reveal_strlit("data_");
        reveal_strlit("save_");
        reveal_strlit("loop_");
    }
    let n = toks.len();
    let mut blocks: Vec<CifBlock> = Vec::new();
    let mut have_block = false;
    let mut block = empty_block(String::new());
    let mut in_frame = false;
    let mut frame = empty_frame(String::new());
    let mut i: usize = 0;
    assert(state_view(blocks@, block, have_block, frame, in_frame) =~= start_state()) by {
        assert(blocks@.map_values(|b: CifBlock| b@) =~= Seq::<BlockModel>::empty());
    }
    while i < n
        invariant
            i <= n == toks@.len(),
            forall|k: int| 0 <= k < blocks@.len() ==> (#[trigger] blocks@[k]).wf(),
            block.wf(),
            frame.wf(),
            parse_from(toks@, 0, start_state()) == parse_from(
                toks@,
                i as int,
                state_view(blocks@, block, have_block, frame, in_frame),
            ),
        decreases n - i,
    {
        let ghost st = state_view(blocks@, block, have_block, frame, in_frame);
        let t = &toks[i];
        let line = t.line;
        if is_data_keyword(t) {
            if in_frame {
                return Err(CifError::InvalidStructure(at_line("save frame not closed before the next block", line)));
            }
            if t.chars.len() <= 5 {
                return Err(CifError::InvalidStructure(at_line("data block without a name", line)));
            }
            let name = string_of(copy_range(t.chars.as_slice(), 5, t.chars.len()).as_slice());
            if have_block {
                proof {
                    lemma_push_view(blocks@, block);
                }
                blocks.push(block);
                assert forall|k: int| 0 <= k < blocks@.len() implies (#[trigger] blocks@[k]).wf() by {}
            }
            block = empty_block(name);
            have_block = true;
            assert(state_view(blocks@, block, have_block, frame, in_frame) == ParseState {
                blocks: closed_blocks(st),
                block: empty_block_model(t.chars@.subrange(5, t.chars@.len() as int)),
                have_block: true,
                ..st
            });
            i = i + 1;
        } else if is_save_keyword(t) {
            if !have_block {
                return Err(CifError::InvalidStructure(at_line("save frame outside a data block", line)));
            }
            if t.chars.len() <= 5 {
                if !in_frame {
                    return Err(CifError::InvalidStructure(at_line("save_ without an open save frame", line)));
                }
                let ghost before = block.frames@;
                let ghost fm = frame@;
                block.frames.push(frame);
                assert forall|k: int| 0 <= k < block.frames@.len() implies (#[trigger] block.frames@[k]).wf() by {
                    if k < before.len() {
                        assert(block.frames@[k] == before[k]);
                    }
                }
                assert(block@.frames =~= st.block.frames.push(fm));
                frame = empty_frame(String::new());
                in_frame = false;
                assert(state_view(blocks@, block, have_block, frame, in_frame) == ParseState {
                    block: BlockModel { frames: st.block.frames.push(st.frame), ..st.block },
                    frame: empty_frame_model(Seq::empty()),
                    in_frame: false,
                    ..st
                });
            } else {
                if in_frame {
                    return Err(CifError::InvalidStructure(at_line("save frames do not nest", line)));
                }
                let name = string_of(copy_range(t.chars.as_slice(), 5, t.chars.len()).as_slice());
                frame = empty_frame(name);
                in_frame = true;
            }
            i = i + 1;
        } else if is_loop_keyword(t) {
            if !have_block {
                return Err(CifError::InvalidStructure(at_line("loop_ outside a data block", line)));
            }
            match parse_loop(toks, i + 1, line) {
                Err(e) => {
                    return Err(e);
                },
                Ok((lp, next)) => {
                    if !add_loop(&mut block, &mut frame, in_frame, lp, Ghost(st.blocks), Ghost(have_block)) {
                        return Err(CifError::InvalidStructure(at_line("loop tag already used in this scope", line)));
                    }
                    i = next;
                },
            }
        } else if is_tag_exec(t) {
            if !have_block {
                return Err(CifError::InvalidStructure(at_line("tag outside a data block", line)));
            }
            if i + 1 >= n || !is_value_exec(&toks[i + 1]) {
                return Err(CifError::InvalidStructure(at_line("tag without value", line)));
            }
            let key = string_of(t.chars.as_slice());
            let value = classify_chars(toks[i + 1].chars.as_slice());
            if !add_item(&mut block, &mut frame, in_frame, key, value, Ghost(st.blocks), Ghost(have_block)) {
                return Err(CifError::InvalidStructure(at_line("item tag already used by a loop in this scope", line)));
            }
            i = i + 2;
        } else {
            let text = string_of(t.chars.as_slice());
            return Err(CifError::InvalidStructure(token_message("unexpected value token", text.as_str(), line)));
        }
    }
    if in_frame {
        let last_line = if n > 0 { toks[n - 1].line } else { 1 };
        return Err(CifError::InvalidStructure(at_line("save frame not closed before the end", last_line)));
    }
    let ghost st = state_view(blocks@, block, have_block, frame, in_frame);
    if have_block {
        proof {
            lemma_push_view(blocks@, block);
        }
        blocks.push(block);
        assert forall|k: int| 0 <= k < blocks@.len() implies (#[trigger] blocks@[k]).wf() by {}
    }
    let doc = CifDocument { blocks };
    assert(doc@ == closed_blocks(st));
    Ok(doc)
}

/// Parse CIF text into a document. The text is scanned into tokens as
/// `scan` says; a failed scan is a `ParseError`. The tokens are assembled
/// as `parse_from` says; a grammar violation is an `InvalidStructure`.
/// The result is exactly the document that `parse_from` gives.
pub fn parse(text: &str) -> (r: Result<CifDocument, CifError>)
    ensures
        (r is Err && r->Err_0 is ParseError) <==> scan(text@, 0) is None,
        r is Err ==> r->Err_0 is ParseError || r->Err_0 is InvalidStructure,
        scan(text@, 0) is Some ==> exists|toks: Seq<RawToken>| {
            &&& raw_model(toks) == scan(text@, 0)->Some_0
            &&& (r is Ok <==> parse_from(toks, 0, start_state()) is Some)
            &&& (r is Ok ==> r->Ok_0@ == parse_from(toks, 0, start_state())->Some_0)
        },
        r is Ok ==> r->Ok_0.wf(),
{
    let cs = chars_of(text);
    match tokenize_chars(cs.as_slice()) {
        Err(e) => Err(e),
        Ok(toks) => {
            let r = parse_tokens(&toks);
            assert(raw_model(toks@) == scan(text@, 0)->Some_0);
            r
        },
    }
}

impl CifDocument {
    /// Parse CIF text into a document; see [`parse`].
    pub fn parse(text: &str) -> (r: Result<CifDocument, CifError>)
        ensures
            (r is Err && r->Err_0 is ParseError) <==> scan(text@, 0) is None,
            r is Err ==> r->Err_0 is ParseError || r->Err_0 is InvalidStructure,
            scan(text@, 0) is Some ==> exists|toks: Seq<RawToken>| {
                &&& raw_model(toks) == scan(text@, 0)->Some_0
                &&& (r is Ok <==> parse_from(toks, 0, start_state()) is Some)
                &&& (r is Ok ==> r->Ok_0@ == parse_from(toks, 0, start_state())->Some_0)
            },
            r is Ok ==> r->Ok_0.wf(),
    {
        parse(text)
    }
}

} // verus!
