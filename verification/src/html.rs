//! What the HTML report needs to know.

use crate::notification::{Level, Notifications};
use crate::schema::NotificationId;
use core::ops::Range;
use vstd::prelude::*;
use vstd::string::*;

verus! {

/// Where the report is written.
pub struct Config {
    pub outdir: String,
}

impl Default for Config {
    fn default() -> (config: Self)
        ensures
            config.outdir@ == "target/cargo-duvet/report"@,
    {
        Self { outdir: "target/cargo-duvet/report".to_owned() }
    }
}

/// The letter that stands for a level in the identifiers of the report.
pub fn level_id(level: Level) -> (id: &'static str)
    ensures
        id@ == match level {
            Level::Fatal => "f"@,
            Level::Error => "e"@,
            Level::Warning => "w"@,
            Level::Success => "s"@,
            Level::Info => "i"@,
        },
{
    match level {
        Level::Fatal => "f",
        Level::Error => "e",
        Level::Warning => "w",
        Level::Success => "s",
        Level::Info => "i",
    }
}

/// A piece of a line: its bytes, and the region of notifications that lies
/// over it, by its number among the regions; none where no region does.
#[derive(Clone, Copy, Debug, PartialEq, Eq, Structural)]
pub struct Piece {
    pub start: u32,
    pub end: u32,
    pub region: Option<usize>,
}

/// How a line from `start` up to `end` falls into pieces along the regions of
/// notifications from the `cursor`-th on, and the region at which the line
/// behind it goes on. The regions are taken in their order. One that ends
/// before the line does and started before it is passed over. One that
/// starts and ends behind the line is left for the lines to come, and so is
/// all of the line. Up to one that starts within the line, the line is a
/// piece of its own. One that reaches over the end of the line takes what is
/// left of the line and stays for the next line; one that ends in the line
/// takes the line up to its end, and the next region is looked at.
pub open spec fn pieces(start: int, end: int, regions: Seq<Range<u32>>, cursor: int) -> (Seq<
    Piece,
>, int)
    decreases regions.len() - cursor, end - start,
{
    if start >= end {
        (Seq::empty(), cursor)
    } else if cursor < 0 || cursor >= regions.len() {
        (seq![Piece { start: start as u32, end: end as u32, region: None }], cursor)
    } else {
        let n = regions[cursor];
        if start < n.start && end < n.end {
            (seq![Piece { start: start as u32, end: end as u32, region: None }], cursor)
        } else if start > n.start && end > n.end {
            pieces(start, end, regions, cursor + 1)
        } else if start < n.start {
            let cut = if end < n.start {
                end
            } else {
                n.start as int
            };
            let rest = pieces(cut, end, regions, cursor);
            (seq![Piece { start: start as u32, end: cut as u32, region: None }] + rest.0, rest.1)
        } else if end < n.end {
            (seq![Piece { start: start as u32, end: end as u32, region: Some(cursor as usize) }], cursor)
        } else {
            let cut = if end < n.end {
                end
            } else {
                n.end as int
            };
            if cut > start {
                let rest = pieces(cut, end, regions, cursor + 1);
                (
                    seq![Piece { start: start as u32, end: cut as u32, region: Some(cursor as usize) }]
                        + rest.0,
                    rest.1,
                )
            } else {
                (Seq::empty(), cursor)
            }
        }
    }
}

/// The pieces lie one behind the other, none empty, from `start` up to `end`.
pub open spec fn tiles(p: Seq<Piece>, start: int, end: int) -> bool
    decreases p.len(),
{
    if p.len() == 0 {
        start == end
    } else {
        p[0].start == start && start < p[0].end <= end && tiles(p.drop_first(), p[0].end as int, end)
    }
}

/// The pieces of a line tile the line, where no region is empty.
pub proof fn lemma_pieces_tile(start: int, end: int, regions: Seq<Range<u32>>, cursor: int)
    requires
        0 <= start <= end <= u32::MAX,
        0 <= cursor,
        forall|i: int| 0 <= i < regions.len() ==> regions[i].start < regions[i].end,
    ensures
        tiles(pieces(start, end, regions, cursor).0, start, end),
        cursor <= pieces(start, end, regions, cursor).1,
        cursor <= regions.len() ==> pieces(start, end, regions, cursor).1 <= regions.len(),
    decreases regions.len() - cursor, end - start,
{
    reveal_with_fuel(tiles, 2);
    if start >= end {
    } else if cursor >= regions.len() {
        let p = pieces(start, end, regions, cursor).0;
        assert(p.drop_first() =~= Seq::<Piece>::empty());
    } else {
        let n = regions[cursor];
        if start < n.start && end < n.end {
            let p = pieces(start, end, regions, cursor).0;
            assert(p.drop_first() =~= Seq::<Piece>::empty());
        } else if start > n.start && end > n.end {
            lemma_pieces_tile(start, end, regions, cursor + 1);
        } else if start < n.start {
            let cut = if end < n.start {
                end
            } else {
                n.start as int
            };
            lemma_pieces_tile(cut, end, regions, cursor);
            let p = pieces(start, end, regions, cursor).0;
            assert(p.drop_first() =~= pieces(cut, end, regions, cursor).0);
        } else if end < n.end {
            let p = pieces(start, end, regions, cursor).0;
            assert(p.drop_first() =~= Seq::<Piece>::empty());
        } else {
            let cut = n.end as int;
            lemma_pieces_tile(cut, end, regions, cursor + 1);
            let p = pieces(start, end, regions, cursor).0;
            assert(p.drop_first() =~= pieces(cut, end, regions, cursor + 1).0);
        }
    }
}

/// The pieces of the line `line` along the regions of notifications from the
/// `cursor`-th on, and the region at which the line behind it goes on.
pub fn line_regions(line: Range<u32>, regions: &[Range<u32>], cursor: usize) -> (r: (
    Vec<Piece>,
    usize,
))
    requires
        forall|i: int| 0 <= i < regions@.len() ==> regions@[i].start < regions@[i].end,
    ensures
        r.0@ == pieces(line.start as int, line.end as int, regions@, cursor as int).0,
        r.1 == pieces(line.start as int, line.end as int, regions@, cursor as int).1,
{
    let mut out: Vec<Piece> = Vec::new();
    let mut start = line.start;
    let end = line.end;
    let mut at = cursor;
    let ghost whole = pieces(line.start as int, line.end as int, regions@, cursor as int);
    loop
        invariant
            forall|i: int| 0 <= i < regions@.len() ==> regions@[i].start < regions@[i].end,
            end == line.end,
            whole == pieces(line.start as int, line.end as int, regions@, cursor as int),
            whole.0 == out@ + pieces(start as int, end as int, regions@, at as int).0,
            whole.1 == pieces(start as int, end as int, regions@, at as int).1,
        decreases regions@.len() - at, end - start,
    {
        if start >= end {
            assert(out@ + Seq::<Piece>::empty() =~= out@);
            return (out, at);
        }
        if at >= regions.len() {
            out.push(Piece { start, end, region: None });
            return (out, at);
        }
        let n_start = regions[at].start;
        let n_end = regions[at].end;
        if start < n_start && end < n_end {
            // the regions don't come until later
            out.push(Piece { start, end, region: None });
            return (out, at);
        } else if start > n_start && end > n_end {
            // the region has passed
            at += 1;
        } else if start < n_start {
            // the region comes later in the line
            let cut = if end < n_start {
                end
            } else {
                n_start
            };
            proof {
                let rest = pieces(cut as int, end as int, regions@, at as int);
                assert(out@.push(Piece { start, end: cut, region: None }) + rest.0 =~= out@ + (
                seq![Piece { start, end: cut, region: None }] + rest.0));
            }
            out.push(Piece { start, end: cut, region: None });
            start = cut;
        } else if end < n_end {
            // the region reaches over the end of the line
            out.push(Piece { start, end, region: Some(at) });
            return (out, at);
        } else {
            // the region ends in the line: go on with the next
            let cut = n_end;
            proof {
                let rest = pieces(cut as int, end as int, regions@, at + 1);
                assert(out@.push(Piece { start, end: cut, region: Some(at) }) + rest.0 =~= out@ + (
                seq![Piece { start, end: cut, region: Some(at) }] + rest.0));
            }
            out.push(Piece { start, end: cut, region: Some(at) });
            start = cut;
            at += 1;
        }
    }
}

/// The place of a level among the levels, the gravest first.
pub fn level_rank(level: Level) -> (rank: u8)
    ensures
        rank == match level {
            Level::Fatal => 0u8,
            Level::Error => 1u8,
            Level::Warning => 2u8,
            Level::Success => 3u8,
            Level::Info => 4u8,
        },
{
    match level {
        Level::Fatal => 0,
        Level::Error => 1,
        Level::Warning => 2,
        Level::Success => 3,
        Level::Info => 4,
    }
}

/// The level of a rank.
pub open spec fn rank_of(level: Level) -> int {
    match level {
        Level::Fatal => 0,
        Level::Error => 1,
        Level::Warning => 2,
        Level::Success => 3,
        Level::Info => 4,
    }
}

/// The level under which a region of notifications is shown: the last, in
/// the order of the levels, among the levels of its notifications; none
/// where it has no notification.
pub fn region_level<N>(notifications: &Notifications<N>, ids: &[NotificationId]) -> (r: Option<
    Level,
>)
    requires
        forall|i: int| 0 <= i < ids@.len() ==> ids@[i].0 < notifications.notifications@.len(),
    ensures
        r is None <==> ids@.len() == 0,
        r matches Some(level) ==> {
            &&& exists|i: int|
                0 <= i < ids@.len() && notifications.notifications@[ids@[i].0 as int].0 == level
            &&& forall|i: int|
                0 <= i < ids@.len() ==> rank_of(
                    notifications.notifications@[(#[trigger] ids@[i]).0 as int].0,
                ) <= rank_of(level)
        },
{
    if ids.len() == 0 {
        return None;
    }
    let mut level = notifications.get(ids[0]).0;
    let mut i: usize = 1;
    while i < ids.len()
        invariant
            1 <= i <= ids@.len(),
            forall|k: int| 0 <= k < ids@.len() ==> ids@[k].0 < notifications.notifications@.len(),
            exists|k: int|
                0 <= k < i && notifications.notifications@[ids@[k].0 as int].0 == level,
            forall|k: int|
                0 <= k < i ==> rank_of(
                    notifications.notifications@[(#[trigger] ids@[k]).0 as int].0,
                ) <= rank_of(level),
        decreases ids@.len() - i,
    {
        let other = notifications.get(ids[i]).0;
        if level_rank(other) > level_rank(level) {
            level = other;
        }
        i += 1;
    }
    Some(level)
}

} // verus!
