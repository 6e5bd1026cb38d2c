//! The journal: transactions read from a block-structured text file.
//!
//! The block splitter groups the input lines: comment lines are dropped,
//! blank lines separate blocks, and every other line joins the current
//! block, carrying its 1-based line number.  The block grammar itself is
//! not interpreted further.

use vstd::prelude::*;

use crate::error::InputLoc;
use crate::parser::trim_spec;
use crate::tags::seq_views;
use crate::transaction::Transaction;

verus! {

/// One input line with its location.
#[derive(Debug)]
pub struct Line {
    pub text: String,
    pub loc: InputLoc,
}

/// A maximal run of content lines between blank lines.
#[derive(Debug)]
pub struct Block {
    pub lines: Vec<Line>,
}

/// The mathematical content of a block: each line's text and its 1-based
/// line number.
#[verifier::ext_equal]
pub struct BlockView {
    pub lines: Seq<(Seq<char>, int)>,
}

/// The view of one line.
pub open spec fn line_view(l: Line) -> (Seq<char>, int) {
    (l.text@, l.loc.line_number as int)
}

/// The views of a list of lines.
pub open spec fn line_views(s: Seq<Line>) -> Seq<(Seq<char>, int)> {
    s.map_values(|l: Line| line_view(l))
}

/// The views of a list of blocks.
pub open spec fn block_views(s: Seq<Block>) -> Seq<BlockView> {
    s.map_values(|b: Block| BlockView { lines: line_views(b.lines@) })
}

/// The block structure of the input from line `k` on, with the current
/// open block and the blocks already closed: comment lines are dropped,
/// blank lines close the open block, anything else joins it.
pub open spec fn blocks_of(
    lines: Seq<Seq<char>>,
    k: int,
    cur: Seq<(Seq<char>, int)>,
    done: Seq<BlockView>,
) -> Seq<BlockView>
    decreases lines.len() - k,
{
    if 0 <= k < lines.len() {
        let l = lines[k];
        if l.len() > 0 && l[0] == '#' {
            blocks_of(lines, k + 1, cur, done)
        } else if trim_spec(l).len() > 0 {
            blocks_of(lines, k + 1, cur.push((l, k + 1)), done)
        } else if cur.len() > 0 {
            blocks_of(lines, k + 1, Seq::empty(), done.push(BlockView { lines: cur }))
        } else {
            blocks_of(lines, k + 1, cur, done)
        }
    } else {
        if cur.len() > 0 {
            done.push(BlockView { lines: cur })
        } else {
            done
        }
    }
}

/// Whether a string is blank: nothing is left after trimming whitespace.
fn is_blank(s: &str) -> (r: bool)
    ensures
        r == (trim_spec(s@).len() == 0),
{
    let n = s.unicode_len();
    let a = crate::parser::trim_start_idx_exec(s, 0);
    proof {
        crate::parser::lemma_trim_start_char(s@, 0);
        crate::parser::lemma_trim_end_bounds(s@, s@.len() as int);
        if (a as int) < s@.len() {
            lemma_trim_end_after(s@, a as int, s@.len() as int);
        }
    }
    a == n
}

proof fn lemma_trim_end_after(s: Seq<char>, a: int, k: int)
    requires
        0 <= a < k <= s.len(),
        !crate::parser::is_space(s[a]),
    ensures
        crate::parser::trim_end_idx(s, k) > a,
    decreases k,
{
    if 0 < k && crate::parser::is_space(s[k - 1]) {
        lemma_trim_end_after(s, a, k - 1);
    }
}

/// Splits numbered input lines into blocks, as [`blocks_of`] describes.
pub fn split_blocks(lines: &Vec<String>) -> (r: Vec<Block>)
    requires
        lines@.len() < u32::MAX,
    ensures
        block_views(r@) == blocks_of(seq_views(lines@), 0, Seq::empty(), Seq::empty()),
{
    let ghost lv = seq_views(lines@);
    let n = lines.len();
    let mut done: Vec<Block> = Vec::new();
    let mut cur: Vec<Line> = Vec::new();
    let mut k: usize = 0;
    proof {
        assert(line_views(cur@) =~= Seq::<(Seq<char>, int)>::empty());
        assert(block_views(done@) =~= Seq::<BlockView>::empty());
    }
    while k < n
        invariant
            k <= n,
            n == lines@.len(),
            n < u32::MAX,
            lv == seq_views(lines@),
            blocks_of(lv, 0, Seq::empty(), Seq::empty()) == blocks_of(
                lv,
                k as int,
                line_views(cur@),
                block_views(done@),
            ),
        decreases n - k,
    {
        let line = &lines[k];
        let ln = line.unicode_len();
        let is_comment = ln > 0 && line.as_str().get_char(0) == '#';
        if is_comment {
            // dropped entirely
        } else if !is_blank(line.as_str()) {
            let ghost before = line_views(cur@);
            cur.push(
                Line { text: line.clone(), loc: InputLoc::new((k + 1) as u32) },
            );
            proof {
                assert(line_views(cur@) =~= before.push((lv[k as int], k + 1 as int)));
            }
        } else if cur.len() > 0 {
            let ghost cur_v = line_views(cur@);
            let ghost done_before = block_views(done@);
            done.push(Block { lines: cur });
            cur = Vec::new();
            proof {
                assert(line_views(cur@) =~= Seq::<(Seq<char>, int)>::empty());
                assert(block_views(done@) =~= done_before.push(BlockView { lines: cur_v }));
            }
        }
        k += 1;
    }
    if cur.len() > 0 {
        let ghost cur_v = line_views(cur@);
        let ghost done_before = block_views(done@);
        done.push(Block { lines: cur });
        proof {
            assert(block_views(done@) =~= done_before.push(BlockView { lines: cur_v }));
        }
    }
    done
}

/// The transactions read from a journal.
pub struct Journal {
    pub transactions: Vec<Transaction>,
}

impl Journal {
    /// Creates an empty journal.
    pub fn new() -> (r: Journal)
        ensures
            r.transactions@.len() == 0,
    {
        Journal { transactions: Vec::new() }
    }
}

} // verus!
