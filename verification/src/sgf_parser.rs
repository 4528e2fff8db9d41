//! Move-record parser and board-state encoder.
//!
//! A record's textual payload is the fixed window of bytes `[5, 9)` of the
//! raw record (a wire-format constant of the upstream record framing). The
//! text is split on `;`; a token of the form `B[xy`... or `W[xy`... where
//! `x` and `y` are lower-case ASCII letters contributes the move
//! `(x - 'a', y - 'a')`; every other token is ignored. All moves but the
//! last are replayed onto an empty board with the placing player
//! alternating, starting with player 1; the last move is withheld and its
//! flattened cell index is returned as the prediction target.

use vstd::prelude::*;
use vstd::slice::{slice_index_get, slice_subrange};
use vstd::string::StringSliceAdditionalSpecFns;
use vstd::utf8::valid_utf8;

verus! {

/// Side length of the board; coordinates live in `[0, BOARD_SIZE)`.
pub const BOARD_SIZE: usize = 9;

/// First byte of a raw record's textual payload. The payload is the fixed
/// window of bytes `[WINDOW_START, BOARD_SIZE)`: a wire-format constant of
/// the upstream record framing, to be kept bit-exact.
pub const WINDOW_START: usize = 5;

/// The move-separator byte, `;`.
pub const SEPARATOR: u8 = 59;

/// The byte value of `B`, the black-move marker's first character.
pub const BLACK_MARK: u8 = 66;

/// The byte value of `W`, the white-move marker's first character.
pub const WHITE_MARK: u8 = 87;

/// The byte value of `[`, the marker's second character.
pub const OPEN_BRACKET: u8 = 91;

/// The byte value of `a`, the letter standing for coordinate 0.
pub const LETTER_A: u8 = 97;

/// The byte value of `z`, the last letter the grammar recognizes.
pub const LETTER_Z: u8 = 122;

/// Why a record failed to parse. Every failure is per-record and
/// recoverable: batch assembly drops the record and goes on.
#[derive(Clone, Copy, Debug, PartialEq, Eq)]
pub enum ParseError {
    /// No move token was recognized in the textual payload.
    Empty,
    /// Some move's coordinate lies outside `[0, BOARD_SIZE)` on either axis.
    OutOfBounds,
    /// The record is too short to hold the textual window, or the window is
    /// not valid UTF-8 text.
    Encoding,
}

/// True when both axes of a move lie on the board.
pub open spec fn in_bounds(m: (usize, usize)) -> bool {
    m.0 < BOARD_SIZE && m.1 < BOARD_SIZE
}

/// The flattened cell index of a coordinate pair: `x * BOARD_SIZE + y`.
pub open spec fn spec_encode_to_1d(m: (usize, usize)) -> int {
    m.0 * BOARD_SIZE + m.1
}

/// The coordinate pair a flattened cell index stands for.
pub open spec fn spec_decode_to_2d(loc: int) -> (int, int) {
    (loc / (BOARD_SIZE as int), loc % (BOARD_SIZE as int))
}

/// Flattens a board coordinate to its cell index.
pub fn encode_to_1d(loc: (usize, usize)) -> (r: usize)
    requires
        in_bounds(loc),
    ensures
        r == spec_encode_to_1d(loc),
        r < BOARD_SIZE * BOARD_SIZE,
{
    loc.0 * BOARD_SIZE + loc.1
}

/// Recovers the board coordinate a flattened cell index stands for.
pub fn decode_to_2d(loc: usize) -> (r: (usize, usize))
    ensures
        r.0 == spec_decode_to_2d(loc as int).0,
        r.1 == spec_decode_to_2d(loc as int).1,
{
    (loc / BOARD_SIZE, loc % BOARD_SIZE)
}

/// True for a lower-case ASCII letter, the only coordinate characters the
/// grammar recognizes.
pub open spec fn is_coord_letter(b: u8) -> bool {
    LETTER_A <= b && b <= LETTER_Z
}

/// True when a token contributes a move: it begins with a black- or
/// white-move marker (`B[` or `W[`) followed by two coordinate letters.
/// Anything after the two letters is ignored.
pub open spec fn is_move_token(t: Seq<u8>) -> bool {
    &&& t.len() >= 4
    &&& (t[0] == BLACK_MARK || t[0] == WHITE_MARK)
    &&& t[1] == OPEN_BRACKET
    &&& is_coord_letter(t[2])
    &&& is_coord_letter(t[3])
}

/// The move a move token encodes: the two coordinate letters' offsets
/// from `'a'`.
pub open spec fn token_move(t: Seq<u8>) -> (usize, usize)
    recommends
        is_move_token(t),
{
    ((t[2] - LETTER_A) as usize, (t[3] - LETTER_A) as usize)
}

/// The moves one token contributes: one move, or none.
pub open spec fn token_moves(t: Seq<u8>) -> Seq<(usize, usize)> {
    if is_move_token(t) {
        seq![token_move(t)]
    } else {
        seq![]
    }
}

/// Index of the first separator of `s` at or after `start`, or the text's
/// length when no separator follows.
pub open spec fn first_sep_from(s: Seq<u8>, start: int) -> int
    decreases s.len() - start,
{
    if start < 0 || start >= s.len() {
        s.len() as int
    } else if s[start] == SEPARATOR {
        start
    } else {
        first_sep_from(s, start + 1)
    }
}

/// The moves contributed in text order by the `;`-separated tokens of `s`
/// from position `start` on.
pub open spec fn moves_from(s: Seq<u8>, start: int) -> Seq<(usize, usize)>
    decreases s.len() - start,
{
    let k = first_sep_from(s, start);
    if start <= k && k < s.len() {
        token_moves(s.subrange(start, k)) + moves_from(s, k + 1)
    } else {
        token_moves(s.subrange(start, s.len() as int))
    }
}

/// All moves recognized in a textual payload, in play order.
pub open spec fn spec_moves(s: Seq<u8>) -> Seq<(usize, usize)> {
    moves_from(s, 0)
}

proof fn lemma_first_sep_at(s: Seq<u8>, start: int, i: int)
    requires
        0 <= start <= i <= s.len(),
        forall|j: int| start <= j < i ==> s[j] != SEPARATOR,
        i < s.len() ==> s[i] == SEPARATOR,
    ensures
        first_sep_from(s, start) == i,
    decreases i - start,
{
    if start < i {
        lemma_first_sep_at(s, start + 1, i);
    }
}

/// Appends the move of the token spanning `[start, end)` of `s`, if that
/// token is a move token.
fn push_token_move(moves: &mut Vec<(usize, usize)>, s: &[u8], start: usize, end: usize)
    requires
        start <= end <= s@.len(),
    ensures
        final(moves)@ == old(moves)@ + token_moves(s@.subrange(start as int, end as int)),
{
    let ghost t = s@.subrange(start as int, end as int);
    if end - start >= 4 {
        let c0 = *slice_index_get(s, start);
        let c1 = *slice_index_get(s, start + 1);
        let c2 = *slice_index_get(s, start + 2);
        let c3 = *slice_index_get(s, start + 3);
        assert(c0 == t[0] && c1 == t[1] && c2 == t[2] && c3 == t[3]);
        if (c0 == BLACK_MARK || c0 == WHITE_MARK) && c1 == OPEN_BRACKET && LETTER_A <= c2
            && c2 <= LETTER_Z && LETTER_A <= c3 && c3 <= LETTER_Z {
            moves.push(((c2 - LETTER_A) as usize, (c3 - LETTER_A) as usize));
            assert(moves@ =~= old(moves)@ + token_moves(t));
            return ;
        }
    }
    assert(!is_move_token(t));
    assert(moves@ =~= old(moves)@ + token_moves(t));
}

/// Scans a textual payload's bytes and collects the recognized moves in
/// play order.
pub fn parse_moves_bytes(s: &[u8]) -> (moves: Vec<(usize, usize)>)
    ensures
        moves@ == spec_moves(s@),
{
    let n = s.len();
    let mut moves: Vec<(usize, usize)> = Vec::new();
    let mut start: usize = 0;
    let mut i: usize = 0;
    assert(moves@ + moves_from(s@, 0) =~= moves_from(s@, 0));
    while i < n
        invariant
            start <= i <= n,
            n == s@.len(),
            forall|j: int| start <= j < i ==> s@[j] != SEPARATOR,
            spec_moves(s@) == moves@ + moves_from(s@, start as int),
        decreases n - i,
    {
        if *slice_index_get(s, i) == SEPARATOR {
            proof {
                lemma_first_sep_at(s@, start as int, i as int);
            }
            let ghost before = moves@;
            push_token_move(&mut moves, s, start, i);
            assert(spec_moves(s@) == moves@ + moves_from(s@, i + 1)) by {
                assert(moves_from(s@, start as int) == token_moves(
                    s@.subrange(start as int, i as int),
                ) + moves_from(s@, i + 1));
                assert(before + (token_moves(s@.subrange(start as int, i as int)) + moves_from(
                    s@,
                    i + 1,
                )) =~= moves@ + moves_from(s@, i + 1));
            }
            start = i + 1;
        }
        i = i + 1;
    }
    proof {
        lemma_first_sep_at(s@, start as int, n as int);
    }
    push_token_move(&mut moves, s, start, n);
    moves
}

/// Recognizes the move tokens of an SGF-like move text.
pub fn parse_moves(sgf: &str) -> (moves: Vec<(usize, usize)>)
    ensures
        moves@ == spec_moves(sgf.spec_bytes()),
{
    parse_moves_bytes(sgf.as_bytes())
}

/// Law: `decode_to_2d` inverts `encode_to_1d` on every board coordinate.
pub proof fn lemma_encode_decode_inverse(x: usize, y: usize)
    requires
        x < BOARD_SIZE,
        y < BOARD_SIZE,
    ensures
        spec_decode_to_2d(spec_encode_to_1d((x, y))) == (x as int, y as int),
{
    let n = BOARD_SIZE as int;
    assert((x * n + y) / n == x as int && (x * n + y) % n == y as int) by (nonlinear_arith)
        requires 0 <= x < n && 0 <= y < n;
}

/// The stone the `i`-th placed move puts down: player 1 on even turns,
/// player 2 on odd turns.
pub open spec fn player_of(i: int) -> u8 {
    if i % 2 == 0 {
        1
    } else {
        2
    }
}

/// The all-empty board grid.
pub open spec fn empty_board() -> Seq<u8> {
    Seq::new((BOARD_SIZE * BOARD_SIZE) as nat, |i: int| 0u8)
}

/// The board after replaying `ms` in play order onto the empty board,
/// alternating players starting with player 1. A later stone on the same
/// cell overwrites an earlier one.
pub open spec fn replay(ms: Seq<(usize, usize)>) -> Seq<u8>
    recommends
        forall|i: int| 0 <= i < ms.len() ==> in_bounds(#[trigger] ms[i]),
    decreases ms.len(),
{
    if ms.len() == 0 {
        empty_board()
    } else {
        replay(ms.drop_last()).update(
            spec_encode_to_1d(ms.last()),
            player_of(ms.len() - 1),
        )
    }
}

/// The board encoding of a recognized move sequence: `Empty` when there is
/// no move at all, `OutOfBounds` when any move leaves the board, else the
/// board replaying all moves but the last, paired with the last move's
/// flattened index as the prediction target.
pub open spec fn spec_encode_board(ms: Seq<(usize, usize)>) -> Result<(Seq<u8>, int), ParseError> {
    if ms.len() == 0 {
        Err(ParseError::Empty)
    } else if exists|i: int| 0 <= i < ms.len() && !in_bounds(#[trigger] ms[i]) {
        Err(ParseError::OutOfBounds)
    } else {
        Ok((replay(ms.drop_last()), spec_encode_to_1d(ms.last())))
    }
}

/// Builds the board grid and target index from a move sequence: replays
/// all moves but the last onto an empty board, alternating players
/// starting with player 1, and returns the withheld last move's flattened
/// index as the target.
pub fn encode_board(moves: &Vec<(usize, usize)>) -> (r: Result<(Vec<u8>, usize), ParseError>)
    ensures
        (match r {
            Ok((board, target)) => {
                &&& spec_encode_board(moves@) == Ok::<(Seq<u8>, int), ParseError>((
                    board@,
                    target as int,
                ))
                &&& board@.len() == BOARD_SIZE * BOARD_SIZE
                &&& target < BOARD_SIZE * BOARD_SIZE
            },
            Err(e) => spec_encode_board(moves@) == Err::<(Seq<u8>, int), ParseError>(e),
        }),
        moves@.len() == 0 <==> r == Err::<(Vec<u8>, usize), ParseError>(ParseError::Empty),
        moves@.len() > 0 && (exists|i: int| 0 <= i < moves@.len() && !in_bounds(#[trigger] moves@[i]))
            <==> r == Err::<(Vec<u8>, usize), ParseError>(ParseError::OutOfBounds),
        moves@.len() > 0 && (forall|i: int| 0 <= i < moves@.len() ==> in_bounds(#[trigger] moves@[i]))
            <==> r is Ok,
{
    let n = moves.len();
    if n == 0 {
        return Err(ParseError::Empty);
    }
    let mut board: Vec<u8> = Vec::new();
    while board.len() < BOARD_SIZE * BOARD_SIZE
        invariant
            board@.len() <= BOARD_SIZE * BOARD_SIZE,
            forall|j: int| 0 <= j < board@.len() ==> board@[j] == 0u8,
        decreases BOARD_SIZE * BOARD_SIZE - board@.len(),
    {
        board.push(0);
    }
    assert(board@ =~= empty_board());
    let mut player: u8 = 1;
    let mut i: usize = 0;
    assert(moves@.take(0) =~= Seq::<(usize, usize)>::empty());
    while i < n - 1
        invariant
            n == moves@.len(),
            1 <= n,
            i <= n - 1,
            player == player_of(i as int),
            forall|j: int| 0 <= j < i ==> in_bounds(#[trigger] moves@[j]),
            board@ == replay(moves@.take(i as int)),
            board@.len() == BOARD_SIZE * BOARD_SIZE,
        decreases n - 1 - i,
    {
        let m = moves[i];
        if m.0 < BOARD_SIZE && m.1 < BOARD_SIZE {
            let idx = m.0 * BOARD_SIZE + m.1;
            board[idx] = player;
            player = if player == 1 {
                2
            } else {
                1
            };
            proof {
                assert(moves@.take(i + 1).drop_last() =~= moves@.take(i as int));
                assert(moves@.take(i + 1).last() == moves@[i as int]);
            }
            i = i + 1;
        } else {
            return Err(ParseError::OutOfBounds);
        }
    }
    let last = moves[n - 1];
    if last.0 < BOARD_SIZE && last.1 < BOARD_SIZE {
        proof {
            assert(moves@.take(n - 1) =~= moves@.drop_last());
        }
        Ok((board, last.0 * BOARD_SIZE + last.1))
    } else {
        Err(ParseError::OutOfBounds)
    }
}

/// True when every move of `ms` lies on the board.
pub open spec fn all_in_bounds(ms: Seq<(usize, usize)>) -> bool {
    forall|i: int| 0 <= i < ms.len() ==> in_bounds(#[trigger] ms[i])
}

/// True when no two moves of `ms` share a board cell.
pub open spec fn distinct_cells(ms: Seq<(usize, usize)>) -> bool {
    forall|i: int, j: int|
        0 <= i < j < ms.len() ==> spec_encode_to_1d(#[trigger] ms[i]) != spec_encode_to_1d(
            #[trigger] ms[j],
        )
}

/// True when no move of `ms` places a stone on cell `c`.
pub open spec fn cell_untouched(ms: Seq<(usize, usize)>, c: int) -> bool {
    forall|i: int| 0 <= i < ms.len() ==> spec_encode_to_1d(#[trigger] ms[i]) != c
}

proof fn lemma_replay_cells(ms: Seq<(usize, usize)>)
    requires
        all_in_bounds(ms),
        distinct_cells(ms),
    ensures
        replay(ms).len() == BOARD_SIZE * BOARD_SIZE,
        forall|i: int|
            0 <= i < ms.len() ==> replay(ms)[spec_encode_to_1d(#[trigger] ms[i])] == player_of(i),
        forall|c: int|
            0 <= c < BOARD_SIZE * BOARD_SIZE && cell_untouched(ms, c) ==> replay(ms)[c] == 0,
    decreases ms.len(),
{
    if ms.len() > 0 {
        let pre = ms.drop_last();
        let n = ms.len() - 1;
        assert(forall|i: int| 0 <= i < n ==> pre[i] == #[trigger] ms[i]);
        assert(all_in_bounds(pre));
        assert(distinct_cells(pre));
        lemma_replay_cells(pre);
        let target_cell = spec_encode_to_1d(ms.last());
        assert(0 <= target_cell < BOARD_SIZE * BOARD_SIZE);
        assert forall|i: int| 0 <= i < ms.len() implies replay(ms)[spec_encode_to_1d(
            #[trigger] ms[i],
        )] == player_of(i) by {
            if i < n {
                assert(replay(pre)[spec_encode_to_1d(pre[i])] == player_of(i));
                assert(spec_encode_to_1d(ms[i]) != target_cell);
            }
        }
        assert forall|c: int|
            0 <= c < BOARD_SIZE * BOARD_SIZE && cell_untouched(ms, c) implies replay(ms)[c]
            == 0 by {
            assert(spec_encode_to_1d(ms[n]) != c);
            assert(cell_untouched(pre, c));
        }
    }
}

/// Law: a well-formed record's board marks each placed move's cell with
/// the placing player — player 1 on even turns, player 2 on odd turns —
/// and the final move's cell, the prediction target, stays empty. Stated
/// for move sequences placing on pairwise distinct cells: when two moves
/// share a cell the later stone overwrites the earlier one, and a final
/// move aimed at an occupied cell leaves that stone standing.
pub proof fn lemma_board_of_record(ms: Seq<(usize, usize)>)
    requires
        ms.len() >= 1,
        all_in_bounds(ms),
        distinct_cells(ms),
    ensures
        spec_encode_board(ms) is Ok,
        spec_encode_board(ms)->Ok_0.1 == spec_encode_to_1d(ms.last()),
        forall|i: int|
            0 <= i < ms.len() - 1 ==> spec_encode_board(ms)->Ok_0.0[spec_encode_to_1d(
                #[trigger] ms[i],
            )] == player_of(i),
        spec_encode_board(ms)->Ok_0.0[spec_encode_to_1d(ms.last())] == 0,
{
    let pre = ms.drop_last();
    let n = ms.len() - 1;
    assert(forall|i: int| 0 <= i < n ==> pre[i] == #[trigger] ms[i]);
    assert(all_in_bounds(pre));
    assert(distinct_cells(pre));
    lemma_replay_cells(pre);
    let target_cell = spec_encode_to_1d(ms.last());
    assert(0 <= target_cell < BOARD_SIZE * BOARD_SIZE);
    assert(cell_untouched(pre, target_cell));
}

/// Relies on `std::str::from_utf8`: it returns `Ok` exactly when the bytes
/// are a valid UTF-8 encoding.
#[verifier::external_body]
fn utf8_check(v: &[u8]) -> (r: bool)
    ensures
        r == valid_utf8(v@),
{
    std::str::from_utf8(v).is_ok()
}

/// The window of a raw record that holds its textual payload.
pub open spec fn payload_window(rec: Seq<u8>) -> Seq<u8> {
    rec.subrange(WINDOW_START as int, BOARD_SIZE as int)
}

/// The full parse of a raw record: `Encoding` when the record cannot hold
/// the textual window or the window is not UTF-8 text; otherwise the board
/// encoding of the window's recognized moves.
pub open spec fn spec_sgf_parse(rec: Seq<u8>) -> Result<(Seq<u8>, int), ParseError> {
    if rec.len() < BOARD_SIZE {
        Err(ParseError::Encoding)
    } else if !valid_utf8(payload_window(rec)) {
        Err(ParseError::Encoding)
    } else {
        spec_encode_board(spec_moves(payload_window(rec)))
    }
}

/// Decodes one raw game record into the board grid of all its moves but
/// the last, and the last move's flattened cell index as the prediction
/// target. The grammar's move tokens are ASCII, so they are recognized on
/// the payload's bytes once the window is known to be text.
pub fn sgf_parser(sgf_ascii: &Vec<u8>) -> (r: Result<(Vec<u8>, usize), ParseError>)
    ensures
        (match r {
            Ok((board, target)) => {
                &&& spec_sgf_parse(sgf_ascii@) == Ok::<(Seq<u8>, int), ParseError>((
                    board@,
                    target as int,
                ))
                &&& board@.len() == BOARD_SIZE * BOARD_SIZE
                &&& target < BOARD_SIZE * BOARD_SIZE
            },
            Err(e) => spec_sgf_parse(sgf_ascii@) == Err::<(Seq<u8>, int), ParseError>(e),
        }),
        sgf_ascii@.len() < BOARD_SIZE || !valid_utf8(payload_window(sgf_ascii@)) <==> r == Err::<
            (Vec<u8>, usize),
            ParseError,
        >(ParseError::Encoding),
        sgf_ascii@.len() >= BOARD_SIZE && valid_utf8(payload_window(sgf_ascii@)) && spec_moves(
            payload_window(sgf_ascii@),
        ).len() == 0 <==> r == Err::<(Vec<u8>, usize), ParseError>(ParseError::Empty),
        sgf_ascii@.len() >= BOARD_SIZE && valid_utf8(payload_window(sgf_ascii@)) && spec_moves(
            payload_window(sgf_ascii@),
        ).len() > 0 && !all_in_bounds(spec_moves(payload_window(sgf_ascii@))) <==> r == Err::<
            (Vec<u8>, usize),
            ParseError,
        >(ParseError::OutOfBounds),
{
    if sgf_ascii.len() < BOARD_SIZE {
        return Err(ParseError::Encoding);
    }
    let window = slice_subrange(sgf_ascii.as_slice(), WINDOW_START, BOARD_SIZE);
    if !utf8_check(window) {
        return Err(ParseError::Encoding);
    }
    let moves = parse_moves_bytes(window);
    encode_board(&moves)
}

} // verus!
