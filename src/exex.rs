//! Handling of chain notifications: a committed chain yields the report of
//! its latest block, every other notification yields nothing.

use vstd::prelude::*;
use crate::encoding::{decimal, push_decimal};
use crate::histogram::{AccountDiff, build_histogram, diff_pairs, first_write_rows};
use crate::report::{render_report, report_text};

verus! {

/// A chain of blocks: the numbers of its blocks and the storage diffs of the
/// accounts it touched.
#[derive(Debug)]
pub struct Chain {
    pub blocks: Vec<u64>,
    pub diffs: Vec<AccountDiff>,
}

/// A notification from the node.
#[derive(Debug)]
pub enum Notification {
    /// A chain was committed.
    Committed(Chain),
    /// A chain was reverted.
    Reverted(Chain),
    /// Any other kind of notification.
    Other,
}

/// Why a notification could not be handled.
#[derive(Debug)]
pub enum ExExError {
    /// A committed chain held no block.
    MissingBlock,
}

/// The report of one block: where it goes and what it holds.
#[derive(Debug)]
pub struct Report {
    pub block: u64,
    pub path: Vec<u8>,
    pub contents: Vec<u8>,
}

/// The largest of a non-empty sequence of block numbers.
pub open spec fn max_block(blocks: Seq<u64>) -> u64
    recommends
        blocks.len() > 0,
    decreases blocks.len(),
{
    if blocks.len() <= 1 {
        blocks[0]
    } else {
        let m = max_block(blocks.drop_last());
        if blocks.last() > m {
            blocks.last()
        } else {
            m
        }
    }
}

pub proof fn lemma_max_block(blocks: Seq<u64>)
    requires
        blocks.len() > 0,
    ensures
        blocks.contains(max_block(blocks)),
        forall|i: int| 0 <= i < blocks.len() ==> blocks[i] <= max_block(blocks),
    decreases blocks.len(),
{
    if blocks.len() > 1 {
        let init = blocks.drop_last();
        lemma_max_block(init);
        let j = choose|j: int| 0 <= j < init.len() && init[j] == max_block(init);
        assert(blocks[j] == init[j]);
        assert forall|i: int| 0 <= i < blocks.len() implies blocks[i] <= max_block(blocks) by {
            if i < init.len() {
                assert(blocks[i] == init[i]);
            }
        }
    } else {
        assert(blocks[0] == max_block(blocks));
    }
}

/// The latest block of a chain: the largest block number, if there is one.
pub fn latest_block(blocks: &Vec<u64>) -> (r: Option<u64>)
    ensures
        r == (if blocks@.len() == 0 {
            None
        } else {
            Some(max_block(blocks@))
        }),
        r matches Some(m) ==> blocks@.contains(m) && forall|i: int|
            0 <= i < blocks@.len() ==> blocks@[i] <= m,
{
    if blocks.len() == 0 {
        return None;
    }
    let mut m = blocks[0];
    let mut i: usize = 1;
    while i < blocks.len()
        invariant
            1 <= i <= blocks@.len(),
            m == max_block(blocks@.take(i as int)),
        decreases blocks@.len() - i,
    {
        assert(blocks@.take(i as int + 1).drop_last() =~= blocks@.take(i as int));
        if blocks[i] > m {
            m = blocks[i];
        }
        i = i + 1;
    }
    assert(blocks@.take(blocks@.len() as int) =~= blocks@);
    proof {
        lemma_max_block(blocks@);
    }
    Some(m)
}

/// `assets/block_<n>_storage_changes.csv`, as bytes.
pub open spec fn artifact_path(block: u64) -> Seq<u8> {
    seq![97u8, 115, 115, 101, 116, 115, 47, 98, 108, 111, 99, 107, 95] + decimal(block as nat)
        + seq![95u8, 115, 116, 111, 114, 97, 103, 101, 95, 99, 104, 97, 110, 103, 101, 115, 46, 99, 115, 118]
}

/// The path of the report of block `block`.
pub fn report_path(block: u64) -> (r: Vec<u8>)
    ensures
        r@ == artifact_path(block),
{
    let mut path: Vec<u8> = vec![97u8, 115, 115, 101, 116, 115, 47, 98, 108, 111, 99, 107, 95];
    push_decimal(block, &mut path);
    let mut suffix: Vec<u8> = vec![
        95u8, 115, 116, 111, 114, 97, 103, 101, 95, 99, 104, 97, 110, 103, 101, 115, 46, 99, 115, 118,
    ];
    path.append(&mut suffix);
    path
}

/// The contents of the report of a committed chain.
pub open spec fn chain_report_text(c: Chain) -> Seq<u8> {
    report_text(first_write_rows(diff_pairs(c.diffs@)))
}

/// The reports on disk, by path, after a notification was handled: a
/// committed chain with a block writes (or overwrites) the report of its
/// latest block; nothing else writes anything.
pub open spec fn artifacts_after(dir: Map<Seq<u8>, Seq<u8>>, n: Notification) -> Map<Seq<u8>, Seq<u8>> {
    match n {
        Notification::Committed(c) => if c.blocks@.len() > 0 {
            dir.insert(artifact_path(max_block(c.blocks@)), chain_report_text(c))
        } else {
            dir
        },
        _ => dir,
    }
}

/// Handles one notification. A committed chain gives the report of its
/// latest block; a committed chain without blocks is an error; every other
/// notification gives no report.
pub fn process_notification(n: &Notification) -> (r: Result<Option<Report>, ExExError>)
    ensures
        !(n is Committed) ==> r matches Ok(None),
        n matches Notification::Committed(c) ==> {
            &&& (c.blocks@.len() == 0 <==> r matches Err(ExExError::MissingBlock))
            &&& c.blocks@.len() > 0 ==> r is Ok
            &&& r is Ok ==> (r->Ok_0 matches Some(rep) && rep.block == max_block(c.blocks@)
                && rep.path@ == artifact_path(rep.block) && rep.contents@ == chain_report_text(*c))
        },
        r matches Ok(Some(rep)) ==> forall|dir: Map<Seq<u8>, Seq<u8>>|
            #[trigger] artifacts_after(dir, *n) == dir.insert(rep.path@, rep.contents@),
        r matches Ok(None) ==> forall|dir: Map<Seq<u8>, Seq<u8>>|
            #[trigger] artifacts_after(dir, *n) == dir,
{
    match n {
        Notification::Committed(c) => {
            let block = match latest_block(&c.blocks) {
                Some(b) => b,
                None => {
                    return Err(ExExError::MissingBlock);
                },
            };
            let h = build_histogram(&c.diffs);
            let contents = render_report(&h);
            let path = report_path(block);
            Ok(Some(Report { block, path, contents }))
        },
        Notification::Reverted(_) => Ok(None),
        Notification::Other => Ok(None),
    }
}

/// Overwrite, not merge: of two committed chains whose latest block is the
/// same, the one handled second decides the report of that block.
pub proof fn lemma_second_report_wins(dir: Map<Seq<u8>, Seq<u8>>, c1: Chain, c2: Chain)
    requires
        c1.blocks@.len() > 0,
        c2.blocks@.len() > 0,
        max_block(c1.blocks@) == max_block(c2.blocks@),
    ensures
        artifacts_after(artifacts_after(dir, Notification::Committed(c1)), Notification::Committed(c2))
            == artifacts_after(dir, Notification::Committed(c2)),
        artifacts_after(artifacts_after(dir, Notification::Committed(c1)), Notification::Committed(c2))[artifact_path(max_block(c2.blocks@))]
            == chain_report_text(c2),
{
    let p = artifact_path(max_block(c2.blocks@));
    assert(dir.insert(p, chain_report_text(c1)).insert(p, chain_report_text(c2)) =~= dir.insert(
        p,
        chain_report_text(c2),
    ));
}

/// Only committed chains produce reports: any other notification leaves
/// the reports as they were.
pub proof fn lemma_ignored_notifications(dir: Map<Seq<u8>, Seq<u8>>, n: Notification)
    requires
        !(n is Committed),
    ensures
        artifacts_after(dir, n) == dir,
{
}

} // verus!
