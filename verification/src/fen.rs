//! FEN notation of positions: `p0/p1/w0/w1/walls turn`, for instance
//! `e1/e9/10/10/ R` for the starting position.

use vstd::prelude::*;
use crate::bits::{bit64, has_wall, lemma_set_bits_facts, lemma_wall_set_ext, bits_from, lemma_bits_from_start, lemma_kernighan_end, lemma_kernighan_step, set_bits, set_bits_below};
use crate::state::GameState;
use crate::zobrist::{get_zobrist, key_p0, key_p1, key_wall, xor_wall_keys, zobrist_hash};

verus! {

/// The decimal digit character of `d` (`0..10`).
pub open spec fn digit_char(d: int) -> char {
    (48 + d) as char
}

/// The decimal text of `n`, without leading zeros.
pub open spec fn decimal(n: nat) -> Seq<char>
    decreases n,
{
    if n < 10 {
        seq![digit_char(n as int)]
    } else {
        decimal(n / 10).push(digit_char((n % 10) as int))
    }
}

/// The text of cell `pos`: column letter from `a`, then row digit from `1`.
pub open spec fn pos_text(pos: int) -> Seq<char> {
    seq![(97 + pos % 9) as char, (49 + pos / 9) as char]
}

/// The text of a wall at slot `idx`: column letter, row digit, then `h` or `v`.
pub open spec fn wall_text(idx: int, horizontal: bool) -> Seq<char> {
    seq![(97 + idx % 8) as char, (49 + idx / 8) as char, if horizontal { 'h' } else { 'v' }]
}

/// The texts of the walls of one orientation, by increasing slot.
pub open spec fn wall_texts(w: u64, horizontal: bool) -> Seq<Seq<char>> {
    set_bits(w).map_values(|i: int| wall_text(i, horizontal))
}

/// The pieces joined with the separator between consecutive pieces.
pub open spec fn join(parts: Seq<Seq<char>>, sep: char) -> Seq<char>
    decreases parts.len(),
{
    if parts.len() == 0 {
        Seq::empty()
    } else if parts.len() == 1 {
        parts[0]
    } else {
        join(parts.drop_last(), sep).push(sep) + parts.last()
    }
}

/// The walls field of a FEN text: horizontal walls first, each orientation by
/// increasing slot, separated by commas.
pub open spec fn walls_field(s: GameState) -> Seq<char> {
    join(wall_texts(s.walls_h, true) + wall_texts(s.walls_v, false), ',')
}

/// The board word of a FEN text: both pawn cells, both wall counts and the walls
/// field, separated by `/`.
pub open spec fn fen_board(s: GameState) -> Seq<char> {
    pos_text(s.positions[0] as int) + seq!['/'] + pos_text(s.positions[1] as int) + seq!['/']
        + decimal(s.walls_left[0] as nat) + seq!['/'] + decimal(s.walls_left[1] as nat) + seq!['/']
        + walls_field(s)
}

/// The turn word of a FEN text: `R` when player 0 is to move, `B` otherwise.
pub open spec fn turn_word(s: GameState) -> Seq<char> {
    if s.player_to_move == 0 {
        seq!['R']
    } else {
        seq!['B']
    }
}

/// The FEN text of a position: the board word, a space, the turn word.
pub open spec fn fen_text(s: GameState) -> Seq<char> {
    fen_board(s) + seq![' '] + turn_word(s)
}

/// `char::is_whitespace`: the characters with the Unicode White_Space property.
pub open spec fn is_white_space(c: char) -> bool {
    let u = c as u32;
    ||| 9 <= u <= 13
    ||| u == 32
    ||| u == 0x85
    ||| u == 0xA0
    ||| u == 0x1680
    ||| 0x2000 <= u <= 0x200A
    ||| u == 0x2028
    ||| u == 0x2029
    ||| u == 0x202F
    ||| u == 0x205F
    ||| u == 0x3000
}

/// Scanning the first `i` characters for whitespace-separated words: the finished
/// words and the word being read.
pub open spec fn ws_scan(s: Seq<char>, i: nat) -> (Seq<Seq<char>>, Seq<char>)
    decreases i,
{
    if i == 0 {
        (Seq::empty(), Seq::empty())
    } else {
        let prev = ws_scan(s, (i - 1) as nat);
        let c = s[i - 1];
        if is_white_space(c) {
            (if prev.1.len() > 0 { prev.0.push(prev.1) } else { prev.0 }, Seq::empty())
        } else {
            (prev.0, prev.1.push(c))
        }
    }
}

/// `str::split_whitespace`: the maximal runs of non-whitespace characters.
pub open spec fn split_whitespace(s: Seq<char>) -> Seq<Seq<char>> {
    let r = ws_scan(s, s.len());
    if r.1.len() > 0 {
        r.0.push(r.1)
    } else {
        r.0
    }
}

/// Scanning the first `i` characters for pieces separated by `sep`: the finished
/// pieces and the piece being read.
pub open spec fn sep_scan(s: Seq<char>, sep: char, i: nat) -> (Seq<Seq<char>>, Seq<char>)
    decreases i,
{
    if i == 0 {
        (Seq::empty(), Seq::empty())
    } else {
        let prev = sep_scan(s, sep, (i - 1) as nat);
        let c = s[i - 1];
        if c == sep {
            (prev.0.push(prev.1), Seq::empty())
        } else {
            (prev.0, prev.1.push(c))
        }
    }
}

/// `str::split` on a character: the pieces between separators, empty ones included.
pub open spec fn split_on(s: Seq<char>, sep: char) -> Seq<Seq<char>> {
    let r = sep_scan(s, sep, s.len());
    r.0.push(r.1)
}

/// An ASCII decimal digit.
pub open spec fn is_digit(c: char) -> bool {
    '0' <= c <= '9'
}

/// Every character is an ASCII decimal digit.
pub open spec fn all_digits(d: Seq<char>) -> bool {
    forall|i: int| 0 <= i < d.len() ==> is_digit(#[trigger] d[i])
}

/// The value of a string of decimal digits.
pub open spec fn digits_value(d: Seq<char>) -> int
    decreases d.len(),
{
    if d.len() == 0 {
        0
    } else {
        digits_value(d.drop_last()) * 10 + (d.last() as int - 48)
    }
}

/// `str::parse::<u8>`: an optional `+`, then at least one decimal digit, with a value
/// that fits in a byte.
pub open spec fn parse_u8(t: Seq<char>) -> Option<u8> {
    let d = if t.len() > 0 && t[0] == '+' {
        t.drop_first()
    } else {
        t
    };
    if d.len() > 0 && all_digits(d) && digits_value(d) <= 255 {
        Some(digits_value(d) as u8)
    } else {
        None
    }
}

/// Number of UTF-8 bytes of a character.
pub open spec fn utf8_width(c: char) -> int {
    let u = c as u32;
    if u < 0x80 {
        1
    } else if u < 0x800 {
        2
    } else if u < 0x10000 {
        3
    } else {
        4
    }
}

/// Number of UTF-8 bytes of a string.
pub open spec fn utf8_len(t: Seq<char>) -> int
    decreases t.len(),
{
    if t.len() == 0 {
        0
    } else {
        utf8_len(t.drop_last()) + utf8_width(t.last())
    }
}

/// An ASCII character.
pub open spec fn is_ascii_char(c: char) -> bool {
    (c as u32) < 128
}

/// The cell a two-letter cell text names: column from `a`, row from `1`.
pub open spec fn token_pos(t: Seq<char>) -> int {
    (t[1] as u32 - 49) * 9 + (t[0] as u32 - 97)
}

/// The wall slot a wall text names: column from `a`, row from `1`.
pub open spec fn token_wall_idx(t: Seq<char>) -> int {
    (t[1] as u32 - 49) * 8 + (t[0] as u32 - 97)
}

/// A cell text the loader can read without its byte arithmetic overflowing: two
/// ASCII characters naming a board cell.
pub open spec fn pos_token_ok(t: Seq<char>) -> bool {
    &&& t.len() >= 2
    &&& is_ascii_char(t[0])
    &&& is_ascii_char(t[1])
    &&& (t[0] as u32) >= 97
    &&& (t[1] as u32) >= 49
    &&& token_pos(t) < 81
}

/// A wall text the loader can read without its byte arithmetic overflowing: shorter
/// than three bytes (skipped), or two ASCII characters naming a slot number that fits
/// a byte, one on the board when the third character is `h` or `v`.
pub open spec fn wall_token_ok(t: Seq<char>) -> bool {
    ||| utf8_len(t) < 3
    ||| {
        &&& t.len() >= 3
        &&& is_ascii_char(t[0])
        &&& is_ascii_char(t[1])
        &&& (t[0] as u32) >= 97
        &&& (t[1] as u32) >= 49
        &&& token_wall_idx(t) <= 255
        &&& (t[2] == 'h' || t[2] == 'v') ==> token_wall_idx(t) < 64
    }
}

/// The walls that the first `n` wall texts place: a text of at least three bytes
/// names a slot, and its third character `h` or `v` gives the orientation (any other
/// character places nothing).
pub open spec fn walls_scan(toks: Seq<Seq<char>>, n: nat) -> (u64, u64)
    decreases n,
{
    if n == 0 {
        (0, 0)
    } else {
        let prev = walls_scan(toks, (n - 1) as nat);
        let t = toks[n - 1];
        if utf8_len(t) >= 3 {
            let idx = token_wall_idx(t);
            if t[2] == 'h' {
                (prev.0 | (1u64 << (idx as u64)), prev.1)
            } else if t[2] == 'v' {
                (prev.0, prev.1 | (1u64 << (idx as u64)))
            } else {
                prev
            }
        } else {
            prev
        }
    }
}

/// The walls of the wall field of a FEN text (none when the field is empty).
pub open spec fn walls_of_field(f: Seq<char>) -> (u64, u64) {
    if f.len() == 0 {
        (0, 0)
    } else {
        walls_scan(split_on(f, ','), split_on(f, ',').len())
    }
}

/// Why a FEN text was refused.
#[derive(Clone, Copy, Debug, PartialEq, Eq, Structural)]
pub enum FenError {
    /// The text is not two whitespace-separated words.
    MissingSpace,
    /// The board word is not five `/`-separated fields.
    FieldCount,
}

/// The FEN texts the loader reads without panicking: when the text has two words and
/// the first has five fields, the cell fields name board cells and every wall text
/// can be read.
pub open spec fn fen_loadable(fen: Seq<char>) -> bool {
    let parts = split_whitespace(fen);
    let bp = split_on(parts[0], '/');
    parts.len() == 2 && bp.len() == 5 ==> {
        &&& pos_token_ok(bp[0])
        &&& pos_token_ok(bp[1])
        &&& bp[4].len() > 0 ==> forall|i: int|
            0 <= i < split_on(bp[4], ',').len() ==> wall_token_ok(#[trigger] split_on(bp[4], ',')[i])
    }
}

/// What loading a FEN text gives: an error when it is not two words or the first word
/// is not five fields; otherwise the position it describes, with an unreadable wall
/// count read as 0, player 0 to move exactly when the second word is `R`, and the
/// Zobrist hash computed from scratch.
pub open spec fn fen_result(fen: Seq<char>) -> Result<GameState, FenError> {
    let parts = split_whitespace(fen);
    if parts.len() != 2 {
        Err(FenError::MissingSpace)
    } else {
        let bp = split_on(parts[0], '/');
        if bp.len() != 5 {
            Err(FenError::FieldCount)
        } else {
            let p0 = token_pos(bp[0]);
            let p1 = token_pos(bp[1]);
            let w0 = match parse_u8(bp[2]) {
                Some(v) => v,
                None => 0u8,
            };
            let w1 = match parse_u8(bp[3]) {
                Some(v) => v,
                None => 0u8,
            };
            let walls = walls_of_field(bp[4]);
            let turn: u8 = if parts[1] == seq!['R'] {
                0
            } else {
                1
            };
            Ok(
                GameState {
                    positions: [p0 as u8, p1 as u8],
                    walls_left: [w0, w1],
                    player_to_move: turn,
                    walls_h: walls.0,
                    walls_v: walls.1,
                    hash: zobrist_hash(p0, p1, walls.0, walls.1, turn as int),
                },
            )
        }
    }
}

/// Appends a character to a string (`String::push`).
#[verifier::external_body]
fn push_char(s: &mut String, c: char)
    ensures
        final(s)@ == old(s)@.push(c),
{
    s.push(c);
}

/// Appends the decimal text of `n`.
fn push_decimal(out: &mut String, n: u8)
    ensures
        final(out)@ == old(out)@ + decimal(n as nat),
{
    if n >= 100 {
        push_char(out, (48u8 + n / 100) as char);
    }
    if n >= 10 {
        push_char(out, (48u8 + (n / 10) % 10) as char);
    }
    push_char(out, (48u8 + n % 10) as char);
    proof {
        if n >= 100 {
            let q = (n / 10) as nat;
            assert(decimal(q / 10) == seq![digit_char((n / 100) as int)]);
            assert(decimal(q) == seq![digit_char((n / 100) as int), digit_char(((n / 10) % 10) as int)]);
        } else if n >= 10 {
            assert(decimal((n / 10) as nat) == seq![digit_char((n / 10) as int)]);
        }
        assert(out@ =~= old(out)@ + decimal(n as nat));
    }
}

impl GameState {
    /// The text of cell `pos` (for instance `e1` for cell 4).
    fn pos_to_str(pos: u8) -> (r: String)
        ensures
            r@ == pos_text(pos as int),
    {
        let x = pos % 9;
        let y = pos / 9;
        let col = (97u8 + x) as char;
        let row = (49u8 + y) as char;
        let mut r = String::new();
        push_char(&mut r, col);
        push_char(&mut r, row);
        proof {
            assert(r@ =~= pos_text(pos as int));
        }
        r
    }

    /// The text of a wall at slot `idx` (for instance `e3h`).
    fn wall_to_str(idx: u8, is_h: bool) -> (r: String)
        requires
            idx < 64,
        ensures
            r@ == wall_text(idx as int, is_h),
    {
        let x = idx % 8;
        let y = idx / 8;
        let col = (97u8 + x) as char;
        let row = (49u8 + y) as char;
        let dir = if is_h { 'h' } else { 'v' };
        let mut r = String::new();
        push_char(&mut r, col);
        push_char(&mut r, row);
        push_char(&mut r, dir);
        proof {
            assert(r@ =~= wall_text(idx as int, is_h));
        }
        r
    }

    /// Appends the wall texts of the set bits of `w`, comma-separated, continuing the
    /// list of texts `done` already written.
    fn push_wall_texts(
        out: &mut String,
        w: u64,
        is_h: bool,
        none_yet: bool,
        Ghost(prefix): Ghost<Seq<char>>,
        Ghost(done): Ghost<Seq<Seq<char>>>,
    ) -> (still_none: bool)
        requires
            old(out)@ == prefix + join(done, ','),
            none_yet == (done.len() == 0),
        ensures
            final(out)@ == prefix + join(done + wall_texts(w, is_h), ','),
            still_none == ((done + wall_texts(w, is_h)).len() == 0),
    {
        let mut v = w;
        let ghost mut n: int = 0;
        let ghost mut listed = done;
        let mut first = none_yet;
        proof {
            lemma_bits_from_start(w);
            assert(done + set_bits_below(w, 0).map_values(|i: int| wall_text(i, is_h)) =~= done);
        }
        while v != 0
            invariant
                0 <= n <= 64,
                bits_from(v, w, n),
                listed == done + set_bits_below(w, n as nat).map_values(|i: int| wall_text(i, is_h)),
                first == (listed.len() == 0),
                out@ == prefix + join(listed, ','),
            decreases 64 - n,
        {
            proof {
                lemma_kernighan_step(w, n, v);
            }
            let idx = v.trailing_zeros() as u8;
            if !first {
                push_char(out, ',');
            }
            let text = Self::wall_to_str(idx, is_h);
            out.append(text.as_str());
            first = false;
            proof {
                let old_n = n;
                n = idx as int + 1;
                let old_listed = listed;
                listed = done + set_bits_below(w, n as nat).map_values(|i: int| wall_text(i, is_h));
                assert(set_bits_below(w, n as nat) == set_bits_below(w, old_n as nat).push(idx as int));
                assert(listed =~= old_listed.push(wall_text(idx as int, is_h)));
                assert(listed.drop_last() =~= old_listed);
                assert(out@ =~= prefix + join(listed, ','));
            }
            v = v & (v - 1);
        }
        proof {
            lemma_kernighan_end(w, n);
        }
        first
    }

    /// The FEN text of this position (see `fen_text`).
    #[allow(non_snake_case)]
    pub fn get_FEN(&self) -> (r: String)
        ensures
            r@ == fen_text(*self),
    {
        let p0 = Self::pos_to_str(self.positions[0]);
        let p1 = Self::pos_to_str(self.positions[1]);
        let mut out = String::new();
        out.append(p0.as_str());
        push_char(&mut out, '/');
        out.append(p1.as_str());
        push_char(&mut out, '/');
        push_decimal(&mut out, self.walls_left[0]);
        push_char(&mut out, '/');
        push_decimal(&mut out, self.walls_left[1]);
        push_char(&mut out, '/');
        let ghost prefix = out@;
        proof {
            assert(out@ =~= prefix + join(Seq::<Seq<char>>::empty(), ','));
        }
        let none = Self::push_wall_texts(&mut out, self.walls_h, true, true, Ghost(prefix), Ghost(Seq::empty()));
        proof {
            assert(Seq::<Seq<char>>::empty() + wall_texts(self.walls_h, true) =~= wall_texts(self.walls_h, true));
        }
        Self::push_wall_texts(&mut out, self.walls_v, false, none, Ghost(prefix), Ghost(wall_texts(self.walls_h, true)));
        push_char(&mut out, ' ');
        if self.player_to_move == 0 {
            push_char(&mut out, 'R');
        } else {
            push_char(&mut out, 'B');
        }
        proof {
            assert(out@ =~= fen_text(*self));
        }
        out
    }
}


/// The views of a list of character vectors.
pub open spec fn views(v: Seq<Vec<char>>) -> Seq<Seq<char>> {
    v.map_values(|t: Vec<char>| t@)
}

/// The characters of a string.
fn chars_of(fen: &str) -> (v: Vec<char>)
    ensures
        v@ == fen@,
{
    let mut v: Vec<char> = Vec::new();
    for c in it: fen.chars()
        invariant
            v@ == it.seq().take(it.index() as int),
    {
        v.push(c);
    }
    v
}

/// `char::is_whitespace`.
fn is_white_space_char(c: char) -> (r: bool)
    ensures
        r == is_white_space(c),
{
    let u = c as u32;
    (9 <= u && u <= 13) || u == 32 || u == 0x85 || u == 0xA0 || u == 0x1680 || (0x2000 <= u && u
        <= 0x200A) || u == 0x2028 || u == 0x2029 || u == 0x202F || u == 0x205F || u == 0x3000
}

/// Splits at whitespace (see `split_whitespace`).
fn split_whitespace_chars(s: &Vec<char>) -> (r: Vec<Vec<char>>)
    ensures
        views(r@) == split_whitespace(s@),
{
    let mut toks: Vec<Vec<char>> = Vec::new();
    let mut cur: Vec<char> = Vec::new();
    let mut i: usize = 0;
    while i < s.len()
        invariant
            i <= s.len(),
            views(toks@) == ws_scan(s@, i as nat).0,
            cur@ == ws_scan(s@, i as nat).1,
        decreases s.len() - i,
    {
        let c = s[i];
        if is_white_space_char(c) {
            if cur.len() > 0 {
                let ghost before = toks@;
                let ghost word = cur@;
                toks.push(cur);
                cur = Vec::new();
                proof {
                    assert(views(toks@) =~= views(before).push(word));
                }
            } else {
                cur = Vec::new();
            }
        } else {
            cur.push(c);
        }
        proof {
            assert(cur@ =~= ws_scan(s@, (i + 1) as nat).1);
        }
        i = i + 1;
    }
    if cur.len() > 0 {
        let ghost before = toks@;
        let ghost word = cur@;
        toks.push(cur);
        proof {
            assert(views(toks@) =~= views(before).push(word));
        }
    }
    proof {
        assert(s@.len() == i);
    }
    toks
}

/// Splits at every occurrence of `sep` (see `split_on`).
fn split_on_chars(s: &Vec<char>, sep: char) -> (r: Vec<Vec<char>>)
    ensures
        views(r@) == split_on(s@, sep),
{
    let mut toks: Vec<Vec<char>> = Vec::new();
    let mut cur: Vec<char> = Vec::new();
    let mut i: usize = 0;
    while i < s.len()
        invariant
            i <= s.len(),
            views(toks@) == sep_scan(s@, sep, i as nat).0,
            cur@ == sep_scan(s@, sep, i as nat).1,
        decreases s.len() - i,
    {
        let c = s[i];
        if c == sep {
            let ghost before = toks@;
            let ghost piece = cur@;
            toks.push(cur);
            cur = Vec::new();
            proof {
                assert(views(toks@) =~= views(before).push(piece));
            }
        } else {
            cur.push(c);
        }
        proof {
            assert(cur@ =~= sep_scan(s@, sep, (i + 1) as nat).1);
        }
        i = i + 1;
    }
    let ghost before = toks@;
    let ghost piece = cur@;
    toks.push(cur);
    proof {
        assert(views(toks@) =~= views(before).push(piece));
    }
    toks
}

/// Prefixes of a digit string never have a larger value than the whole.
proof fn lemma_digits_prefix(d: Seq<char>, k: int)
    requires
        0 <= k <= d.len(),
        forall|i: int| 0 <= i < d.len() ==> is_digit(#[trigger] d[i]),
    ensures
        digits_value(d.take(k)) <= digits_value(d),
        digits_value(d.take(k)) >= 0,
    decreases d.len() - k,
{
    if k < d.len() {
        lemma_digits_prefix(d, k + 1);
        assert(d.take(k + 1).drop_last() =~= d.take(k));
    } else {
        assert(d.take(k) =~= d);
    }
    lemma_digits_nonneg(d.take(k));
}

proof fn lemma_digits_nonneg(d: Seq<char>)
    requires
        forall|i: int| 0 <= i < d.len() ==> is_digit(#[trigger] d[i]),
    ensures
        digits_value(d) >= 0,
    decreases d.len(),
{
    if d.len() > 0 {
        lemma_digits_nonneg(d.drop_last());
    }
}

/// `str::parse::<u8>` (see `parse_u8`).
fn parse_u8_chars(t: &Vec<char>) -> (r: Option<u8>)
    ensures
        r == parse_u8(t@),
{
    let start: usize = if t.len() > 0 && t[0] == '+' { 1 } else { 0 };
    let ghost d = if t@.len() > 0 && t@[0] == '+' { t@.drop_first() } else { t@ };
    if start == t.len() {
        return None;
    }
    let mut acc: u32 = 0;
    let mut i: usize = start;
    while i < t.len()
        invariant
            start <= i <= t.len(),
            start == t@.len() - d.len(),
            d == t@.subrange(start as int, t@.len() as int),
            d == (if t@.len() > 0 && t@[0] == '+' { t@.drop_first() } else { t@ }),
            forall|j: int| 0 <= j < i - start ==> is_digit(#[trigger] d[j]),
            acc == digits_value(d.take(i - start)),
            acc <= 255,
        decreases t.len() - i,
    {
        let c = t[i];
        proof {
            assert(d[i - start] == c);
        }
        if !(c >= '0' && c <= '9') {
            proof {
                let k = i - start;
                assert(0 <= k < d.len());
                assert(!is_digit(d[k]));
                assert(!(forall|j: int| 0 <= j < d.len() ==> is_digit(#[trigger] d[j])));
                assert(!all_digits(d));
            }
            return None;
        }
        proof {
            assert(d.take(i - start + 1).drop_last() =~= d.take(i - start));
            assert(d.take(i - start + 1).last() == c);
        }
        acc = acc * 10 + (c as u32 - 48);
        assert(acc == digits_value(d.take(i - start + 1)));
        if acc > 255 {
            proof {
                if forall|j: int| 0 <= j < d.len() ==> is_digit(#[trigger] d[j]) {
                    lemma_digits_prefix(d, i - start + 1);
                    assert(digits_value(d) > 255);
                }
            }
            return None;
        }
        i = i + 1;
    }
    proof {
        assert(d.take(d.len() as int) =~= d);
    }
    Some(acc as u8)
}

proof fn lemma_utf8_len_ge(t: Seq<char>)
    ensures
        utf8_len(t) >= t.len(),
    decreases t.len(),
{
    if t.len() > 0 {
        lemma_utf8_len_ge(t.drop_last());
    }
}

proof fn lemma_xor_zero(a: u64, b: u64)
    by (bit_vector)
    ensures
        0u64 ^ a == a,
        a ^ 0u64 == a,
{
}


/// Whether a cell text can be read (see `pos_token_ok`).
fn pos_token_ok_exec(t: &Vec<char>) -> (r: bool)
    ensures
        r == pos_token_ok(t@),
{
    if t.len() < 2 {
        return false;
    }
    let a = t[0] as u32;
    let b = t[1] as u32;
    a < 128 && b < 128 && a >= 97 && b >= 49 && (b - 49) * 9 + (a - 97) < 81
}

/// Number of UTF-8 bytes of the text, capped at 3.
fn utf8_len_at_least_3(t: &Vec<char>) -> (r: bool)
    ensures
        r == (utf8_len(t@) >= 3),
{
    let mut n: u32 = 0;
    let mut i: usize = 0;
    while i < t.len()
        invariant
            i <= t.len(),
            n == utf8_len(t@.take(i as int)),
            n < 3,
        decreases t.len() - i,
    {
        let u = t[i] as u32;
        let w: u32 = if u < 0x80 { 1 } else if u < 0x800 { 2 } else if u < 0x10000 { 3 } else { 4 };
        proof {
            assert(t@.take(i + 1).drop_last() =~= t@.take(i as int));
        }
        if n + w >= 3 {
            proof {
                lemma_utf8_len_prefix(t@, i + 1);
            }
            return true;
        }
        n = n + w;
        i = i + 1;
    }
    proof {
        assert(t@.take(i as int) =~= t@);
    }
    false
}

proof fn lemma_utf8_len_prefix(t: Seq<char>, k: int)
    requires
        0 <= k <= t.len(),
    ensures
        utf8_len(t.take(k)) <= utf8_len(t),
    decreases t.len() - k,
{
    if k < t.len() {
        lemma_utf8_len_prefix(t, k + 1);
        assert(t.take(k + 1).drop_last() =~= t.take(k));
    } else {
        assert(t.take(k) =~= t);
    }
}

/// Whether a wall text can be read (see `wall_token_ok`).
fn wall_token_ok_exec(t: &Vec<char>) -> (r: bool)
    ensures
        r == wall_token_ok(t@),
{
    if !utf8_len_at_least_3(t) {
        return true;
    }
    if t.len() < 3 {
        return false;
    }
    let a = t[0] as u32;
    let b = t[1] as u32;
    if !(a < 128 && b < 128 && a >= 97 && b >= 49) {
        return false;
    }
    let idx = (b - 49) * 8 + (a - 97);
    if idx > 255 {
        return false;
    }
    if t[2] == 'h' || t[2] == 'v' {
        idx < 64
    } else {
        true
    }
}

impl GameState {
    /// Whether `load_from_FEN` can read the text without panicking (see `fen_loadable`).
    pub fn fen_is_loadable(fen: &str) -> (r: bool)
        ensures
            r == fen_loadable(fen@),
    {
        let chars = chars_of(fen);
        let parts = split_whitespace_chars(&chars);
        if parts.len() != 2 {
            return true;
        }
        proof {
            assert(parts@[0]@ == split_whitespace(fen@)[0]);
        }
        let board_parts = split_on_chars(&parts[0], '/');
        if board_parts.len() != 5 {
            return true;
        }
        let ghost bp = split_on(split_whitespace(fen@)[0], '/');
        proof {
            assert forall|i: int| 0 <= i < 5 implies #[trigger] board_parts@[i]@ == bp[i] by {
                assert(views(board_parts@)[i] == bp[i]);
            }
        }
        if !pos_token_ok_exec(&board_parts[0]) || !pos_token_ok_exec(&board_parts[1]) {
            return false;
        }
        if board_parts[4].len() == 0 {
            return true;
        }
        let toks = split_on_chars(&board_parts[4], ',');
        let ghost wt = split_on(bp[4], ',');
        proof {
            assert(fen_loadable(fen@) == (forall|j: int| 0 <= j < wt.len() ==> wall_token_ok(#[trigger] wt[j])));
        }
        let mut i: usize = 0;
        while i < toks.len()
            invariant
                i <= toks.len(),
                views(toks@) == wt,
                forall|j: int| 0 <= j < i ==> wall_token_ok(#[trigger] wt[j]),
                fen_loadable(fen@) == (forall|j: int| 0 <= j < wt.len() ==> wall_token_ok(#[trigger] wt[j])),
            decreases toks.len() - i,
        {
            proof {
                assert(toks@[i as int]@ == wt[i as int]);
            }
            if !wall_token_ok_exec(&toks[i]) {
                proof {
                    assert(!wall_token_ok(wt[i as int]));
                }
                return false;
            }
            i = i + 1;
        }
        true
    }

    /// The cell a cell text names.
    fn str_to_pos(t: &Vec<char>) -> (r: u8)
        requires
            pos_token_ok(t@),
        ensures
            r == token_pos(t@),
    {
        let x = (t[0] as u32 - 97) as u8;
        let y = (t[1] as u32 - 49) as u8;
        y * 9 + x
    }

    /// Hashes a position from scratch.
    fn full_hash(p0: u8, p1: u8, walls_h: u64, walls_v: u64, player_to_move: u8) -> (h: u64)
        requires
            p0 < 81,
            p1 < 81,
        ensures
            h == zobrist_hash(p0 as int, p1 as int, walls_h, walls_v, player_to_move as int),
    {
        let z = get_zobrist();
        let mut hash: u64 = 0;
        hash = hash ^ z.p0_pos[p0 as usize];
        hash = hash ^ z.p1_pos[p1 as usize];
        let ghost base = hash;
        proof {
            lemma_xor_zero(key_p0(p0 as int), 0);
            assert(base == key_p0(p0 as int) ^ key_p1(p1 as int));
            lemma_bits_from_start(walls_h);
            lemma_xor_zero(base, 0);
        }
        let mut temp_h = walls_h;
        let ghost mut n: int = 0;
        while temp_h != 0
            invariant
                0 <= n <= 64,
                z.is_standard(),
                bits_from(temp_h, walls_h, n),
                hash == base ^ xor_wall_keys(set_bits_below(walls_h, n as nat), true),
            decreases 64 - n,
        {
            proof {
                lemma_kernighan_step(walls_h, n, temp_h);
            }
            let idx = temp_h.trailing_zeros() as usize;
            proof {
                let old_n = n;
                n = idx as int + 1;
                let l = set_bits_below(walls_h, n as nat);
                assert(l == set_bits_below(walls_h, old_n as nat).push(idx as int));
                assert(l.drop_last() == set_bits_below(walls_h, old_n as nat));
                assert(xor_wall_keys(l, true) == xor_wall_keys(set_bits_below(walls_h, old_n as nat), true) ^ key_wall(true, idx as int));
                let a = xor_wall_keys(set_bits_below(walls_h, old_n as nat), true);
                let k = key_wall(true, idx as int);
                assert((base ^ a) ^ k == base ^ (a ^ k)) by (bit_vector);
            }
            hash = hash ^ z.walls_h[idx];
            temp_h = temp_h & (temp_h - 1);
        }
        proof {
            lemma_kernighan_end(walls_h, n);
            lemma_bits_from_start(walls_v);
        }
        let ghost base2 = hash;
        proof {
            lemma_xor_zero(base2, 0);
        }
        let mut temp_v = walls_v;
        let ghost mut m: int = 0;
        while temp_v != 0
            invariant
                0 <= m <= 64,
                z.is_standard(),
                bits_from(temp_v, walls_v, m),
                hash == base2 ^ xor_wall_keys(set_bits_below(walls_v, m as nat), false),
            decreases 64 - m,
        {
            proof {
                lemma_kernighan_step(walls_v, m, temp_v);
            }
            let idx = temp_v.trailing_zeros() as usize;
            proof {
                let old_m = m;
                m = idx as int + 1;
                let l = set_bits_below(walls_v, m as nat);
                assert(l == set_bits_below(walls_v, old_m as nat).push(idx as int));
                assert(l.drop_last() == set_bits_below(walls_v, old_m as nat));
                let a = xor_wall_keys(set_bits_below(walls_v, old_m as nat), false);
                let k = key_wall(false, idx as int);
                assert((base2 ^ a) ^ k == base2 ^ (a ^ k)) by (bit_vector);
            }
            hash = hash ^ z.walls_v[idx];
            temp_v = temp_v & (temp_v - 1);
        }
        proof {
            lemma_kernighan_end(walls_v, m);
            lemma_xor_zero(hash, 0);
        }
        if player_to_move == 1 {
            hash = hash ^ z.player_turn;
        }
        hash
    }

    /// Reads a position from its FEN text (see `fen_result`); the hash is recomputed
    /// from scratch.
    #[allow(non_snake_case)]
    pub fn load_from_FEN(fen: &str) -> (r: Result<GameState, FenError>)
        requires
            fen_loadable(fen@),
        ensures
            r == fen_result(fen@),
    {
        let chars = chars_of(fen);
        let parts = split_whitespace_chars(&chars);
        if parts.len() != 2 {
            return Err(FenError::MissingSpace);
        }
        proof {
            assert(parts@[0]@ == split_whitespace(fen@)[0]);
            assert(parts@[1]@ == split_whitespace(fen@)[1]);
        }
        let board_parts = split_on_chars(&parts[0], '/');
        if board_parts.len() != 5 {
            return Err(FenError::FieldCount);
        }
        let ghost bp = split_on(split_whitespace(fen@)[0], '/');
        proof {
            assert forall|i: int| 0 <= i < 5 implies #[trigger] board_parts@[i]@ == bp[i] by {
                assert(views(board_parts@)[i] == bp[i]);
            }
        }
        let p0 = Self::str_to_pos(&board_parts[0]);
        let p1 = Self::str_to_pos(&board_parts[1]);
        let w0: u8 = match parse_u8_chars(&board_parts[2]) {
            Some(v) => v,
            None => 0,
        };
        let w1: u8 = match parse_u8_chars(&board_parts[3]) {
            Some(v) => v,
            None => 0,
        };
        let mut walls_h: u64 = 0;
        let mut walls_v: u64 = 0;
        if board_parts[4].len() > 0 {
            let toks = split_on_chars(&board_parts[4], ',');
            let ghost wt = split_on(bp[4], ',');
            let mut i: usize = 0;
            while i < toks.len()
                invariant
                    i <= toks.len(),
                    views(toks@) == wt,
                    forall|j: int| 0 <= j < wt.len() ==> wall_token_ok(#[trigger] wt[j]),
                    (walls_h, walls_v) == walls_scan(wt, i as nat),
                decreases toks.len() - i,
            {
                let w = &toks[i];
                proof {
                    assert(w@ == wt[i as int]);
                    lemma_utf8_len_ge(w@);
                    assert(wall_token_ok(wt[i as int]));
                }
                if w.len() >= 3 {
                    let x = (w[0] as u32 - 97) as u8;
                    let y = (w[1] as u32 - 49) as u8;
                    let idx = y * 8 + x;
                    if w[2] == 'h' {
                        walls_h = walls_h | (1u64 << idx);
                    } else if w[2] == 'v' {
                        walls_v = walls_v | (1u64 << idx);
                    }
                }
                i = i + 1;
            }
        }
        let turn = &parts[1];
        let player_to_move: u8 = if turn.len() == 1 && turn[0] == 'R' { 0 } else { 1 };
        proof {
            if turn@.len() == 1 && turn@[0] == 'R' {
                assert(turn@ =~= seq!['R']);
            }
        }
        let hash = Self::full_hash(p0, p1, walls_h, walls_v, player_to_move);
        let r = GameState {
            positions: [p0, p1],
            walls_left: [w0, w1],
            player_to_move,
            walls_h,
            walls_v,
            hash,
        };
        proof {
            assert(r.positions =~= [token_pos(bp[0]) as u8, token_pos(bp[1]) as u8]);
        }
        Ok(r)
    }
}

/// The uppercase hexadecimal digit character of `d` (`0..16`).
pub open spec fn hex_char(d: int) -> char {
    if d < 10 {
        (48 + d) as char
    } else {
        (55 + d) as char
    }
}

/// The 16-digit uppercase hexadecimal text of `w`, most significant digit first.
pub open spec fn hex16(w: u64) -> Seq<char> {
    Seq::new(16, |i: int| hex_char(((w as int) / pow16(15 - i)) % 16))
}

/// `16` to the power `k`.
pub open spec fn pow16(k: int) -> int
    decreases k,
{
    if k <= 0 {
        1
    } else {
        16 * pow16(k - 1)
    }
}

/// Appends the 16-digit uppercase hexadecimal text of `w`.
fn push_hex16(out: &mut String, w: u64)
    ensures
        final(out)@ == old(out)@ + hex16(w),
{
    let ghost start = old(out)@;
    let mut i: u32 = 0;
    while i < 16
        invariant
            i <= 16,
            out@ == start + hex16(w).take(i as int),
        decreases 16 - i,
    {
        let shift: u64 = 4 * (15 - i as u64);
        let d = ((w >> shift) & 0xF) as u8;
        proof {
            assert((w >> shift) & 0xF == (w >> shift) % 16) by (bit_vector);
            lemma_shift_pow16(w, (15 - i) as nat);
        }
        let c = if d < 10 { (48u8 + d) as char } else { (55u8 + d) as char };
        push_char(out, c);
        proof {
            assert(hex16(w).take(i + 1) =~= hex16(w).take(i as int).push(hex16(w)[i as int]));
        }
        i = i + 1;
    }
    proof {
        assert(hex16(w).take(16) =~= hex16(w));
    }
}

/// Shifting right by four bits per hexadecimal digit divides by a power of 16.
proof fn lemma_shift_pow16(w: u64, k: nat)
    requires
        k <= 15,
    ensures
        (w >> ((4 * k) as u64)) as int == (w as int) / pow16(k as int),
    decreases k,
{
    if k == 0 {
        assert(w >> 0u64 == w) by (bit_vector);
    } else {
        lemma_shift_pow16(w, (k - 1) as nat);
        let a = (4 * (k - 1)) as u64;
        assert(a <= 56);
        assert(w >> ((a + 4) as u64) == (w >> a) / 16) by (bit_vector)
            requires
                a <= 56;
        assert((4 * k) as u64 == (a + 4) as u64);
        let p = pow16(k - 1);
        assert(p > 0) by {
            lemma_pow16_pos(k - 1);
        }
        vstd::arithmetic::div_mod::lemma_div_denominator(w as int, p, 16);
        assert(p * 16 == pow16(k as int));
    }
}

proof fn lemma_pow16_pos(k: int)
    ensures
        pow16(k) > 0,
    decreases k,
{
    if k > 0 {
        lemma_pow16_pos(k - 1);
    }
}

/// The name of a move type: `Move`, `Wall_V`, `Wall_H`, or `Unknown`.
pub open spec fn move_type_name(t: u8) -> Seq<char> {
    if t == 0 {
        "Move"@
    } else if t == 1 {
        "Wall_V"@
    } else if t == 2 {
        "Wall_H"@
    } else {
        "Unknown"@
    }
}

impl crate::movegen::Move {
    /// The text `Move(type:NAME, x:X, y:Y)`.
    pub fn repr(&self) -> (r: String)
        ensures
            r@ == "Move(type:"@ + move_type_name(self.move_type) + ", x:"@ + decimal(self.x as nat) + ", y:"@
                + decimal(self.y as nat) + ")"@,
    {
        let m_type = if self.move_type == 0 {
            "Move"
        } else if self.move_type == 1 {
            "Wall_V"
        } else if self.move_type == 2 {
            "Wall_H"
        } else {
            "Unknown"
        };
        let mut out = String::new();
        out.append("Move(type:");
        out.append(m_type);
        out.append(", x:");
        push_decimal(&mut out, self.x);
        out.append(", y:");
        push_decimal(&mut out, self.y);
        out.append(")");
        out
    }
}

impl GameState {
    /// The text `GameState(p0:P0, p1:P1, turn:T, walls_h:HHHH, walls_v:VVVV)`, the wall
    /// sets in 16 uppercase hexadecimal digits.
    pub fn repr(&self) -> (r: String)
        ensures
            r@ == "GameState(p0:"@ + decimal(self.positions[0] as nat) + ", p1:"@ + decimal(
                self.positions[1] as nat,
            ) + ", turn:"@ + decimal(self.player_to_move as nat) + ", walls_h:"@ + hex16(self.walls_h)
                + ", walls_v:"@ + hex16(self.walls_v) + ")"@,
    {
        let mut out = String::new();
        out.append("GameState(p0:");
        push_decimal(&mut out, self.positions[0]);
        out.append(", p1:");
        push_decimal(&mut out, self.positions[1]);
        out.append(", turn:");
        push_decimal(&mut out, self.player_to_move);
        out.append(", walls_h:");
        push_hex16(&mut out, self.walls_h);
        out.append(", walls_v:");
        push_hex16(&mut out, self.walls_v);
        out.append(")");
        out
    }
}

// ---------------------------------------------------------------------------
// Facts used to read back a written FEN text.

/// No character of `s` is `c`.
pub open spec fn lacks(s: Seq<char>, c: char) -> bool {
    forall|i: int| 0 <= i < s.len() ==> #[trigger] s[i] != c
}

/// No character of `s` is whitespace.
pub open spec fn no_white_space(s: Seq<char>) -> bool {
    forall|i: int| 0 <= i < s.len() ==> !is_white_space(#[trigger] s[i])
}

/// The characters of a FEN text other than the separators: letters and digits
/// (code points 48 to 122).
pub open spec fn plain_text(s: Seq<char>) -> bool {
    forall|i: int| 0 <= i < s.len() ==> 48 <= (#[trigger] s[i] as u32) <= 122
}

/// Plain text has no separator and no whitespace.
pub proof fn lemma_plain_text(s: Seq<char>)
    requires
        plain_text(s),
    ensures
        lacks(s, '/'),
        lacks(s, ','),
        lacks(s, ' '),
        no_white_space(s),
{
    assert forall|i: int| 0 <= i < s.len() implies #[trigger] s[i] != '/' && s[i] != ',' && s[i] != ' ' && !is_white_space(s[i]) by {
        assert(48 <= (s[i] as u32) <= 122);
    }
}

/// A scan over a run without separator only extends the current piece.
proof fn lemma_sep_scan_run(s: Seq<char>, sep: char, i: nat, j: nat)
    requires
        i <= j <= s.len(),
        forall|k: int| i <= k < j ==> #[trigger] s[k] != sep,
    ensures
        sep_scan(s, sep, j) == (sep_scan(s, sep, i).0, sep_scan(s, sep, i).1 + s.subrange(i as int, j as int)),
    decreases j - i,
{
    if i < j {
        lemma_sep_scan_run(s, sep, i, (j - 1) as nat);
        assert(sep_scan(s, sep, i).1 + s.subrange(i as int, j as int) =~= (sep_scan(s, sep, i).1 + s.subrange(i as int, j - 1)).push(s[j - 1]));
    } else {
        assert(sep_scan(s, sep, i).1 + s.subrange(i as int, j as int) =~= sep_scan(s, sep, i).1);
    }
}

/// The scan of a prefix does not depend on what follows.
proof fn lemma_sep_scan_prefix(x: Seq<char>, y: Seq<char>, sep: char, i: nat)
    requires
        i <= x.len(),
    ensures
        sep_scan(x + y, sep, i) == sep_scan(x, sep, i),
    decreases i,
{
    if i > 0 {
        lemma_sep_scan_prefix(x, y, sep, (i - 1) as nat);
        assert((x + y)[i - 1] == x[i - 1]);
    }
}

/// After a separator, scanning restarts: the pieces of what follows are appended.
proof fn lemma_sep_scan_restart(x: Seq<char>, y: Seq<char>, sep: char, j: nat)
    requires
        sep_scan(x, sep, x.len()).1.len() == 0,
        j <= y.len(),
    ensures
        sep_scan(x + y, sep, x.len() + j) == (sep_scan(x, sep, x.len()).0 + sep_scan(y, sep, j).0, sep_scan(y, sep, j).1),
    decreases j,
{
    if j == 0 {
        lemma_sep_scan_prefix(x, y, sep, x.len());
        assert(sep_scan(x, sep, x.len()).1 =~= Seq::<char>::empty());
        assert(sep_scan(x, sep, x.len()).0 + Seq::<Seq<char>>::empty() =~= sep_scan(x, sep, x.len()).0);
    } else {
        lemma_sep_scan_restart(x, y, sep, (j - 1) as nat);
        assert((x + y)[x.len() + j - 1] == y[j - 1]);
        let a = sep_scan(x, sep, x.len()).0;
        let b = sep_scan(y, sep, (j - 1) as nat);
        assert((a + b.0).push(b.1) =~= a + b.0.push(b.1));
    }
}

/// Splitting `a + sep + b` splits `a` and `b` apart.
pub proof fn lemma_split_on_concat(a: Seq<char>, b: Seq<char>, sep: char)
    ensures
        split_on(a + seq![sep] + b, sep) == split_on(a, sep) + split_on(b, sep),
{
    let x = a + seq![sep];
    lemma_sep_scan_prefix(a, seq![sep], sep, a.len());
    assert(x[a.len() as int] == sep);
    assert(sep_scan(x, sep, x.len()) == (split_on(a, sep), Seq::<char>::empty()));
    lemma_sep_scan_restart(x, b, sep, b.len());
    assert(x + b =~= a + seq![sep] + b);
    let r = sep_scan(b, sep, b.len());
    assert((split_on(a, sep) + r.0).push(r.1) =~= split_on(a, sep) + r.0.push(r.1));
}

/// A text without separator is a single piece.
pub proof fn lemma_split_on_single(a: Seq<char>, sep: char)
    requires
        lacks(a, sep),
    ensures
        split_on(a, sep) == seq![a],
{
    lemma_sep_scan_run(a, sep, 0, a.len());
    assert(Seq::<char>::empty() + a.subrange(0, a.len() as int) =~= a);
    assert(Seq::<Seq<char>>::empty().push(a) =~= seq![a]);
}

/// Splitting joined pieces gives the pieces back, when none holds the separator.
pub proof fn lemma_split_join(parts: Seq<Seq<char>>, sep: char)
    requires
        parts.len() >= 1,
        forall|i: int| 0 <= i < parts.len() ==> lacks(#[trigger] parts[i], sep),
    ensures
        split_on(join(parts, sep), sep) == parts,
    decreases parts.len(),
{
    if parts.len() == 1 {
        lemma_split_on_single(parts[0], sep);
        assert(seq![parts[0]] =~= parts);
    } else {
        lemma_split_join(parts.drop_last(), sep);
        lemma_split_on_concat(join(parts.drop_last(), sep), parts.last(), sep);
        assert(join(parts.drop_last(), sep).push(sep) =~= join(parts.drop_last(), sep) + seq![sep]);
        lemma_split_on_single(parts.last(), sep);
        assert(parts.drop_last() + seq![parts.last()] =~= parts);
    }
}

/// A whitespace scan over a run without whitespace only extends the current word.
proof fn lemma_ws_scan_run(s: Seq<char>, i: nat, j: nat)
    requires
        i <= j <= s.len(),
        forall|k: int| i <= k < j ==> !is_white_space(#[trigger] s[k]),
    ensures
        ws_scan(s, j) == (ws_scan(s, i).0, ws_scan(s, i).1 + s.subrange(i as int, j as int)),
    decreases j - i,
{
    if i < j {
        lemma_ws_scan_run(s, i, (j - 1) as nat);
        assert(ws_scan(s, i).1 + s.subrange(i as int, j as int) =~= (ws_scan(s, i).1 + s.subrange(i as int, j - 1)).push(s[j - 1]));
    } else {
        assert(ws_scan(s, i).1 + s.subrange(i as int, j as int) =~= ws_scan(s, i).1);
    }
}

/// Two non-empty words without whitespace, one space between them, split into the two
/// words.
pub proof fn lemma_split_two_words(a: Seq<char>, b: Seq<char>)
    requires
        a.len() > 0,
        b.len() > 0,
        no_white_space(a),
        no_white_space(b),
    ensures
        split_whitespace(a + seq![' '] + b) == seq![a, b],
{
    let s = a + seq![' '] + b;
    assert forall|k: int| 0 <= k < a.len() implies !is_white_space(#[trigger] s[k]) by {
        assert(s[k] == a[k]);
    }
    lemma_ws_scan_run(s, 0, a.len());
    assert(Seq::<char>::empty() + s.subrange(0, a.len() as int) =~= a);
    assert(s[a.len() as int] == ' ');
    assert(is_white_space(' '));
    assert(ws_scan(s, a.len() + 1) == (seq![a], Seq::<char>::empty())) by {
        assert(Seq::<Seq<char>>::empty().push(a) =~= seq![a]);
    }
    assert forall|k: int| a.len() + 1 <= k < s.len() implies !is_white_space(#[trigger] s[k]) by {
        assert(s[k] == b[k - a.len() - 1]);
    }
    lemma_ws_scan_run(s, a.len() + 1, s.len());
    assert(Seq::<char>::empty() + s.subrange((a.len() + 1) as int, s.len() as int) =~= b);
    assert(seq![a].push(b) =~= seq![a, b]);
}

/// Decimal texts are digits with no sign, and read back as their value.
pub proof fn lemma_decimal(n: nat)
    ensures
        decimal(n).len() > 0,
        all_digits(decimal(n)),
        digits_value(decimal(n)) == n,
        plain_text(decimal(n)),
    decreases n,
{
    if n < 10 {
        assert(digit_char(n as int) as int == 48 + n);
        assert(decimal(n).drop_last() =~= Seq::<char>::empty());
        assert(decimal(n).last() == digit_char(n as int));
        assert(digits_value(decimal(n)) == digits_value(Seq::<char>::empty()) * 10 + (digit_char(n as int) as int - 48));
    } else {
        lemma_decimal(n / 10);
        let d = decimal(n);
        assert(d.drop_last() =~= decimal(n / 10));
        assert(d.last() == digit_char((n % 10) as int));
        assert(digit_char((n % 10) as int) as int == 48 + n % 10);
        assert(digits_value(d) == digits_value(decimal(n / 10)) * 10 + (n % 10));
        assert((n / 10) * 10 + n % 10 == n);
        assert forall|i: int| 0 <= i < d.len() implies is_digit(#[trigger] d[i]) by {
            if i < d.len() - 1 {
                assert(d[i] == decimal(n / 10)[i]);
            }
        }
        assert forall|i: int| 0 <= i < d.len() implies 48 <= (#[trigger] d[i] as u32) <= 122 by {
            if i < d.len() - 1 {
                assert(d[i] == decimal(n / 10)[i]);
            }
        }
    }
}

/// A byte written in decimal parses back.
pub proof fn lemma_parse_decimal(n: u8)
    ensures
        parse_u8(decimal(n as nat)) == Some(n),
{
    lemma_decimal(n as nat);
    let d = decimal(n as nat);
    assert(d[0] != '+') by {
        assert(is_digit(d[0]));
    }
}

/// A cell text reads back as the cell.
pub proof fn lemma_pos_text(p: int)
    requires
        0 <= p < 81,
    ensures
        pos_token_ok(pos_text(p)),
        token_pos(pos_text(p)) == p,
        plain_text(pos_text(p)),
        pos_text(p).len() == 2,
{
}

/// A wall text names its slot and orientation.
pub proof fn lemma_wall_text(i: int, horizontal: bool)
    requires
        0 <= i < 64,
    ensures
        wall_token_ok(wall_text(i, horizontal)),
        utf8_len(wall_text(i, horizontal)) == 3,
        token_wall_idx(wall_text(i, horizontal)) == i,
        wall_text(i, horizontal)[2] == if horizontal { 'h' } else { 'v' },
        plain_text(wall_text(i, horizontal)),
        lacks(wall_text(i, horizontal), ','),
{
    let t = wall_text(i, horizontal);
    reveal_with_fuel(utf8_len, 4);
    assert(t.drop_last().drop_last().drop_last() =~= Seq::<char>::empty());
    lemma_plain_text(t);
}

/// The walls with a slot bit for each of the first `k` listed slots.
pub open spec fn or_slots(l: Seq<int>, k: nat) -> u64
    decreases k,
{
    if k == 0 {
        0
    } else {
        or_slots(l, (k - 1) as nat) | (1u64 << (l[k - 1] as u64))
    }
}

proof fn lemma_or_slot_bit(w: u64, idx: u64, j: u64)
    by (bit_vector)
    requires
        idx < 64,
        j < 64,
    ensures
        bit64(w | (1u64 << idx), j) == (bit64(w, j) || j == idx),
        !bit64(0u64, j),
{
}

/// The bits of `or_slots` are the listed slots.
proof fn lemma_or_slots(l: Seq<int>, k: nat)
    requires
        k <= l.len(),
        forall|j: int| 0 <= j < l.len() ==> 0 <= #[trigger] l[j] < 64,
    ensures
        forall|b: int| 0 <= b < 64 ==> #[trigger] has_wall(or_slots(l, k), b) == exists|j: int| 0 <= j < k && l[j] == b,
    decreases k,
{
    if k == 0 {
        assert forall|b: int| 0 <= b < 64 implies #[trigger] has_wall(or_slots(l, k), b) == exists|j: int| 0 <= j < k && l[j] == b by {
            lemma_or_slot_bit(0, 0, b as u64);
        }
    } else {
        lemma_or_slots(l, (k - 1) as nat);
        assert forall|b: int| 0 <= b < 64 implies #[trigger] has_wall(or_slots(l, k), b) == exists|j: int| 0 <= j < k && l[j] == b by {
            lemma_or_slot_bit(or_slots(l, (k - 1) as nat), l[k - 1] as u64, b as u64);
            if has_wall(or_slots(l, (k - 1) as nat), b) {
                let j = choose|j: int| 0 <= j < k - 1 && l[j] == b;
                assert(0 <= j < k && l[j] == b);
            }
            if exists|j: int| 0 <= j < k && l[j] == b {
                let j = choose|j: int| 0 <= j < k && l[j] == b;
                if j < k - 1 {
                    assert(exists|j: int| 0 <= j < k - 1 && l[j] == b);
                }
            }
        }
    }
}

/// Setting a bit for each set bit of a wall set rebuilds the wall set.
pub proof fn lemma_or_set_bits(w: u64)
    ensures
        or_slots(set_bits(w), set_bits(w).len()) == w,
{
    let l = set_bits(w);
    lemma_set_bits_facts(w, 64);
    lemma_or_slots(l, l.len());
    assert forall|b: int| 0 <= b < 64 implies #[trigger] has_wall(or_slots(l, l.len()), b) == has_wall(w, b) by {
        if has_wall(w, b) {
            assert(l.contains(b));
        }
    }
    lemma_wall_set_ext(or_slots(l, l.len()), w);
}

/// Reading the written wall texts: horizontal ones first set the horizontal walls,
/// then vertical ones the vertical walls.
pub proof fn lemma_walls_scan_texts(wh: u64, wv: u64, n: nat)
    requires
        n <= wall_texts(wh, true).len() + wall_texts(wv, false).len(),
    ensures
        walls_scan(wall_texts(wh, true) + wall_texts(wv, false), n) == if n <= wall_texts(wh, true).len() {
            (or_slots(set_bits(wh), n), 0u64)
        } else {
            (or_slots(set_bits(wh), set_bits(wh).len()), or_slots(set_bits(wv), (n - set_bits(wh).len()) as nat))
        },
    decreases n,
{
    let th = wall_texts(wh, true);
    let tv = wall_texts(wv, false);
    let t = th + tv;
    if n > 0 {
        lemma_walls_scan_texts(wh, wv, (n - 1) as nat);
        lemma_set_bits_facts(wh, 64);
        lemma_set_bits_facts(wv, 64);
        if n <= th.len() {
            let i = set_bits(wh)[n - 1];
            assert(t[n - 1] == wall_text(i, true));
            lemma_wall_text(i, true);
        } else {
            let i = set_bits(wv)[n - 1 - th.len()];
            assert(t[n - 1] == wall_text(i, false));
            lemma_wall_text(i, false);
        }
    }
}

/// A character of a FEN board word: a letter or digit, `/` or `,`.
pub open spec fn board_char(c: char) -> bool {
    c == '/' || c == ',' || 48 <= (c as u32) <= 122
}

/// Every character of a text is a board character.
pub open spec fn board_text(s: Seq<char>) -> bool {
    forall|i: int| 0 <= i < s.len() ==> board_char(#[trigger] s[i])
}

/// Joining board texts with `,` gives a board text.
pub proof fn lemma_join_board(parts: Seq<Seq<char>>)
    requires
        forall|i: int| 0 <= i < parts.len() ==> board_text(#[trigger] parts[i]),
    ensures
        board_text(join(parts, ',')),
    decreases parts.len(),
{
    if parts.len() >= 2 {
        lemma_join_board(parts.drop_last());
        let j = join(parts.drop_last(), ',');
        let r = j.push(',') + parts.last();
        assert forall|i: int| 0 <= i < r.len() implies board_char(#[trigger] r[i]) by {
            if i < j.len() {
                assert(r[i] == j[i]);
            } else if i == j.len() {
                assert(r[i] == ',');
            } else {
                assert(r[i] == parts.last()[i - j.len() - 1]);
            }
        }
    }
}

/// Board texts have no whitespace; without `/` or `,` they are plain.
pub proof fn lemma_board_text(s: Seq<char>)
    requires
        board_text(s),
    ensures
        no_white_space(s),
{
    assert forall|i: int| 0 <= i < s.len() implies !is_white_space(#[trigger] s[i]) by {
        assert(board_char(s[i]));
    }
}

/// Concatenations of board texts are board texts.
pub proof fn lemma_board_concat(a: Seq<char>, b: Seq<char>)
    requires
        board_text(a),
        board_text(b),
    ensures
        board_text(a + b),
{
    assert forall|i: int| 0 <= i < (a + b).len() implies board_char(#[trigger] (a + b)[i]) by {
        if i < a.len() {
            assert((a + b)[i] == a[i]);
        } else {
            assert((a + b)[i] == b[i - a.len()]);
        }
    }
}

/// Plain texts are board texts.
pub proof fn lemma_plain_board(a: Seq<char>)
    requires
        plain_text(a),
    ensures
        board_text(a),
{
    assert forall|i: int| 0 <= i < a.len() implies board_char(#[trigger] a[i]) by {
        assert(48 <= (a[i] as u32) <= 122);
    }
}

} // verus!
