//! Batch assembly: running the parser over a batch of records, silently
//! dropping the records that fail, and keeping the surviving board grids
//! and target indices index-aligned.

use crate::dataset::GoItem;
use crate::sgf_parser::{sgf_parser, spec_sgf_parse, ParseError};
use vstd::prelude::*;

verus! {

/// True when a raw record parses successfully.
pub open spec fn record_survives(rec: Seq<u8>) -> bool {
    spec_sgf_parse(rec) is Ok
}

/// The board grid and target index of a record that parses.
pub open spec fn record_encoding(rec: Seq<u8>) -> (Seq<u8>, int) {
    spec_sgf_parse(rec)->Ok_0
}

/// The raw record bytes of a batch of items.
pub open spec fn record_bytes(items: Seq<GoItem>) -> Seq<Seq<u8>> {
    items.map_values(|it: GoItem| it.board@)
}

/// The board grids of a sequence of encodings.
pub open spec fn boards_of(ps: Seq<(Seq<u8>, int)>) -> Seq<Seq<u8>> {
    ps.map_values(|p: (Seq<u8>, int)| p.0)
}

/// The target indices of a sequence of encodings.
pub open spec fn targets_of(ps: Seq<(Seq<u8>, int)>) -> Seq<int> {
    ps.map_values(|p: (Seq<u8>, int)| p.1)
}

/// The abstract contents of a sequence of board vectors.
pub open spec fn board_views(boards: Seq<Vec<u8>>) -> Seq<Seq<u8>> {
    boards.map_values(|b: Vec<u8>| b@)
}

/// A sequence of target indices as mathematical integers.
pub open spec fn target_views(targets: Seq<usize>) -> Seq<int> {
    targets.map_values(|t: usize| t as int)
}

/// The encodings of the records of a batch that parse, in input order.
pub open spec fn spec_assemble(recs: Seq<Seq<u8>>) -> Seq<(Seq<u8>, int)>
    decreases recs.len(),
{
    if recs.len() == 0 {
        seq![]
    } else {
        let rest = spec_assemble(recs.drop_last());
        match spec_sgf_parse(recs.last()) {
            Ok(p) => rest.push(p),
            Err(_) => rest,
        }
    }
}

/// Parses every item of a batch in input order, drops the items that fail
/// to parse, and returns the surviving board grids and target indices as
/// two index-aligned sequences: entry `i` of both always comes from the
/// same source record.
pub fn assemble(items: &Vec<GoItem>) -> (r: (Vec<Vec<u8>>, Vec<usize>))
    ensures
        r.0@.len() == r.1@.len(),
        r.0@.len() <= items@.len(),
        board_views(r.0@) == boards_of(spec_assemble(record_bytes(items@))),
        target_views(r.1@) == targets_of(spec_assemble(record_bytes(items@))),
{
    let mut boards: Vec<Vec<u8>> = Vec::new();
    let mut targets: Vec<usize> = Vec::new();
    let ghost recs = record_bytes(items@);
    let mut i: usize = 0;
    assert(board_views(boards@) =~= boards_of(spec_assemble(recs.take(0))));
    assert(target_views(targets@) =~= targets_of(spec_assemble(recs.take(0))));
    while i < items.len()
        invariant
            i <= items@.len(),
            recs == record_bytes(items@),
            recs.len() == items@.len(),
            boards@.len() == targets@.len(),
            boards@.len() <= i,
            board_views(boards@) == boards_of(spec_assemble(recs.take(i as int))),
            target_views(targets@) == targets_of(spec_assemble(recs.take(i as int))),
        decreases items@.len() - i,
    {
        proof {
            assert(recs.take(i + 1).drop_last() =~= recs.take(i as int));
            assert(recs.take(i + 1).last() == recs[i as int]);
            assert(recs[i as int] == items@[i as int].board@);
        }
        match sgf_parser(&items[i].board) {
            Ok((board, target)) => {
                let ghost board_view = board@;
                let ghost pre_assembled = spec_assemble(recs.take(i as int));
                let ghost boards_before = boards@;
                let ghost targets_before = targets@;
                proof {
                    assert(spec_sgf_parse(recs.take(i + 1).last()) == Ok::<
                        (Seq<u8>, int),
                        ParseError,
                    >((board_view, target as int)));
                    assert(spec_assemble(recs.take(i + 1)) == pre_assembled.push(
                        (board_view, target as int),
                    ));
                }
                boards.push(board);
                targets.push(target);
                proof {
                    let new_assembled = pre_assembled.push((board_view, target as int));
                    assert(board_views(boards_before) == boards_of(pre_assembled));
                    assert(board_views(boards_before).len() == boards_before.len());
                    assert(boards_of(pre_assembled).len() == pre_assembled.len());
                    assert(boards_before.len() == pre_assembled.len());
                    assert forall|j: int| 0 <= j < boards@.len() implies board_views(boards@)[j]
                        == boards_of(new_assembled)[j] by {
                        if j < boards_before.len() {
                            assert(boards@[j] == boards_before[j]);
                            assert(board_views(boards_before)[j] == boards_of(pre_assembled)[j]);
                        } else {
                            assert(boards@[j]@ == board_view);
                        }
                    }
                    assert(board_views(boards@) =~= boards_of(new_assembled));
                    assert forall|j: int| 0 <= j < targets@.len() implies target_views(targets@)[j]
                        == targets_of(new_assembled)[j] by {
                        if j < targets_before.len() {
                            assert(targets@[j] == targets_before[j]);
                            assert(target_views(targets_before)[j] == targets_of(pre_assembled)[j]);
                        }
                    }
                    assert(target_views(targets@) =~= targets_of(new_assembled));
                }
            },
            Err(_) => {
                assert(board_views(boards@) =~~= boards_of(spec_assemble(recs.take(i + 1))));
                assert(target_views(targets@) =~~= targets_of(spec_assemble(recs.take(i + 1))));
            },
        }
        i = i + 1;
    }
    proof {
        assert(recs.take(items@.len() as int) =~= recs);
    }
    (boards, targets)
}

/// Law: batch assembly keeps exactly the records that parse — `N` records
/// of which `k` fail yield `N - k` aligned pairs — in input order, and
/// pairs each surviving record's own board with its own target.
pub proof fn lemma_assemble_survivors(recs: Seq<Seq<u8>>)
    ensures
        spec_assemble(recs) == recs.filter(|rec: Seq<u8>| record_survives(rec)).map_values(
            |rec: Seq<u8>| record_encoding(rec),
        ),
        spec_assemble(recs).len() + recs.filter(|rec: Seq<u8>| !record_survives(rec)).len()
            == recs.len(),
    decreases recs.len(),
{
    reveal(Seq::filter);
    let survives = |rec: Seq<u8>| record_survives(rec);
    let fails = |rec: Seq<u8>| !record_survives(rec);
    if recs.len() == 0 {
        assert(spec_assemble(recs) =~= recs.filter(survives).map_values(
            |rec: Seq<u8>| record_encoding(rec),
        ));
    } else {
        let pre = recs.drop_last();
        lemma_assemble_survivors(pre);
        if record_survives(recs.last()) {
            assert(recs.filter(survives) == pre.filter(survives).push(recs.last()));
            assert(recs.filter(fails) == pre.filter(fails));
            assert(spec_assemble(recs) =~= recs.filter(survives).map_values(
                |rec: Seq<u8>| record_encoding(rec),
            ));
        } else {
            assert(recs.filter(survives) == pre.filter(survives));
            assert(recs.filter(fails) == pre.filter(fails).push(recs.last()));
            assert(spec_assemble(recs) =~= recs.filter(survives).map_values(
                |rec: Seq<u8>| record_encoding(rec),
            ));
        }
    }
}

} // verus!
