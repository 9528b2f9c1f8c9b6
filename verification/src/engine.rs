//! The text protocol spoken to the external automated player: vertex
//! encoding and parsing, and the serialisation of outbound commands.  The
//! process plumbing around it lives outside the library.
use crate::model::Stone;
use crate::session;
use vstd::prelude::*;

verus! {

broadcast use vstd::seq_lib::group_seq_properties;

/// An outbound command for the external player.
#[derive(Clone, Copy, PartialEq, Eq, Structural, Debug)]
pub enum Message {
    Play(Stone, u32),
    Genmove,
    Handicap(u32),
    Quit,
}

/// An ASCII lower-case letter folded to upper case; any other character is
/// untouched.
pub open spec fn fold_upper(c: char) -> char {
    if 'a' as u32 <= c as u32 && c as u32 <= 'z' as u32 {
        (((c as u32) - 32) as u32) as char
    } else {
        c
    }
}

/// The column letter of column `x`: 'A' onward, skipping 'I'.
pub open spec fn column_char(x: int) -> char {
    if x <= 7 {
        (('A' as u32) + x as u32) as char
    } else {
        (('A' as u32) + x as u32 + 1) as char
    }
}

/// The column index a letter denotes: 'A' onward with 'I' skipped; `None`
/// for 'I' and for anything that is not an upper-case letter.
pub open spec fn column_of(c: char) -> Option<int> {
    let u = c as u32;
    if 'A' as u32 <= u && u <= 'H' as u32 {
        Some(u - ('A' as u32))
    } else if u == 'I' as u32 {
        None
    } else if 'J' as u32 <= u && u <= 'Z' as u32 {
        Some(u - ('A' as u32) - 1)
    } else {
        None
    }
}

pub open spec fn is_digit(c: char) -> bool {
    '0' as u32 <= c as u32 && c as u32 <= '9' as u32
}

pub open spec fn digit_char(d: int) -> char {
    (('0' as u32) + d as u32) as char
}

pub open spec fn digit_val(c: char) -> int {
    c as u32 - '0' as u32
}

/// The number a string of decimal digits denotes.
pub open spec fn digits_val(s: Seq<char>) -> int
    decreases s.len(),
{
    if s.len() == 0 {
        0
    } else {
        digits_val(s.drop_last()) * 10 + digit_val(s.last())
    }
}

/// The decimal digits of `v`, most significant first.
pub open spec fn dec_chars(v: int) -> Seq<char>
    decreases v,
{
    if v < 10 {
        seq![digit_char(v)]
    } else {
        dec_chars(v / 10).push(digit_char(v % 10))
    }
}

/// The protocol vertex of cell `index` on an `n`-line board: the column
/// letter, then the row counted from the bottom edge.
pub open spec fn vertex_chars(index: int, n: int) -> Seq<char> {
    seq![column_char(index % n)] + dec_chars(n - index / n)
}

/// The cell a vertex text denotes on an `n`-line board: a letter other than
/// the skipped one (either case), then a row within the board; anything else
/// denotes no cell.
pub open spec fn vertex_index(s: Seq<char>, n: int) -> Option<int> {
    if s.len() < 2 {
        None
    } else {
        match column_of(fold_upper(s[0])) {
            None => None,
            Some(x) => {
                let digits = s.subrange(1, s.len() as int);
                if forall|i: int| 0 <= i < digits.len() ==> is_digit(#[trigger] digits[i]) {
                    let row = digits_val(digits);
                    if x < n && 1 <= row && row <= n {
                        Some(n * (n - row) + x)
                    } else {
                        None
                    }
                } else {
                    None
                }
            },
        }
    }
}

/// The board column letters in order, skipping 'I'.
fn column_str(x: u32) -> (r: &'static str)
    requires
        x < 19,
    ensures
        r@ == seq![column_char(x as int)],
        r.is_ascii(),
{
    let r: &'static str = match x {
        0 => "A",
        1 => "B",
        2 => "C",
        3 => "D",
        4 => "E",
        5 => "F",
        6 => "G",
        7 => "H",
        8 => "J",
        9 => "K",
        10 => "L",
        11 => "M",
        12 => "N",
        13 => "O",
        14 => "P",
        15 => "Q",
        16 => "R",
        17 => "S",
        _ => "T",
    };
    proof {
        reveal_strlit("A");
        reveal_strlit("B");
        reveal_strlit("C");
        reveal_strlit("D");
        reveal_strlit("E");
        reveal_strlit("F");
        reveal_strlit("G");
        reveal_strlit("H");
        reveal_strlit("J");
        reveal_strlit("K");
        reveal_strlit("L");
        reveal_strlit("M");
        reveal_strlit("N");
        reveal_strlit("O");
        reveal_strlit("P");
        reveal_strlit("Q");
        reveal_strlit("R");
        reveal_strlit("S");
        reveal_strlit("T");
        assert(r@ =~= seq![column_char(x as int)]);
    }
    r
}

/// The decimal digits as text.
fn digit_str(d: u32) -> (r: &'static str)
    requires
        d < 10,
    ensures
        r@ == seq![digit_char(d as int)],
        r.is_ascii(),
{
    let r: &'static str = match d {
        0 => "0",
        1 => "1",
        2 => "2",
        3 => "3",
        4 => "4",
        5 => "5",
        6 => "6",
        7 => "7",
        8 => "8",
        _ => "9",
    };
    proof {
        reveal_strlit("0");
        reveal_strlit("1");
        reveal_strlit("2");
        reveal_strlit("3");
        reveal_strlit("4");
        reveal_strlit("5");
        reveal_strlit("6");
        reveal_strlit("7");
        reveal_strlit("8");
        reveal_strlit("9");
        assert(r@ =~= seq![digit_char(d as int)]);
    }
    r
}

/// The decimal text of `v`.
pub fn u32_text(v: u32) -> (r: String)
    ensures
        r@ == dec_chars(v as int),
    decreases v,
{
    if v < 10 {
        String::from_str(digit_str(v))
    } else {
        let mut s = u32_text(v / 10);
        s.append(digit_str(v % 10));
        proof {
            assert(s@ =~= dec_chars(v as int));
        }
        s
    }
}

/// The protocol vertex of a cell: its column letter ('I' skipped) and its
/// row numbered upward from the bottom edge.
pub fn index_to_vertex(index: u32, board_size: u32) -> (r: String)
    requires
        1 <= board_size <= 19,
        index < board_size * board_size,
    ensures
        r@ == vertex_chars(index as int, board_size as int),
{
    let x = index % board_size;
    let y = index / board_size;
    proof {
        vstd::arithmetic::div_mod::lemma_mod_division_less_than_divisor(
            index as int,
            board_size as int,
        );
        vstd::arithmetic::div_mod::lemma_multiply_divide_lt(
            index as int,
            board_size as int,
            board_size as int,
        );
    }
    let row = board_size - y;
    let mut s = String::from_str(column_str(x));
    if row >= 10 {
        s.append(digit_str(row / 10));
    }
    s.append(digit_str(row % 10));
    proof {
        if row >= 10 {
            assert(dec_chars(row as int) == dec_chars(row as int / 10).push(
                digit_char(row as int % 10),
            ));
            assert(row as int / 10 == 1);
            assert(dec_chars(1) =~= seq![digit_char(1)]);
        }
        assert(s@ =~= vertex_chars(index as int, board_size as int));
    }
    s
}

/// Parses a protocol vertex back to a cell index, accepting either letter
/// case and any decimal row text; letters and rows outside the board, the
/// skipped letter 'I', and malformed text denote no cell.
#[verifier::loop_isolation(false)]
pub fn vertex_to_index(vertex: &str, board_size: u32) -> (r: Option<u32>)
    requires
        1 <= board_size <= 19,
    ensures
        r is Some <==> vertex_index(vertex@, board_size as int) is Some,
        r matches Some(v) ==> vertex_index(vertex@, board_size as int) == Some(v as int),
{
    let n = board_size;
    let len = vertex.unicode_len();
    if len < 2 {
        return None;
    }
    let c0 = vertex.get_char(0);
    let u0 = c0 as u32;
    let uu = if u0 >= 'a' as u32 && u0 <= 'z' as u32 {
        u0 - 32
    } else {
        u0
    };
    proof {
        if u0 >= 'a' as u32 && u0 <= 'z' as u32 {
            assert(((u0 - 32) as char) as u32 == u0 - 32);
        }
        assert(fold_upper(c0) as u32 == uu);
    }
    let x: u32;
    if uu >= 'A' as u32 && uu <= 'H' as u32 {
        x = uu - 'A' as u32;
    } else if uu >= 'J' as u32 && uu <= 'Z' as u32 {
        x = uu - 'A' as u32 - 1;
    } else {
        return None;
    }
    proof {
        assert(column_of(fold_upper(c0)) == Some(x as int));
    }
    let ghost digits = vertex@.subrange(1, vertex@.len() as int);
    let mut row: u32 = 0;
    let mut i: usize = 1;
    while i < len
        invariant
            1 <= i <= len,
            row <= 199,
            (row == digits_val(vertex@.subrange(1, i as int)) && row <= 199) || (row > n
                && digits_val(vertex@.subrange(1, i as int)) > n),
            digits_val(vertex@.subrange(1, i as int)) >= 0,
            forall|j: int| 1 <= j < i ==> is_digit(#[trigger] vertex@[j]),
        decreases len - i,
    {
        let c = vertex.get_char(i);
        let d = c as u32;
        if d < '0' as u32 || d > '9' as u32 {
            proof {
                assert(!is_digit(digits[i - 1]));
            }
            return None;
        }
        let ghost pre = vertex@.subrange(1, i as int);
        proof {
            assert(vertex@.subrange(1, i + 1 as int).drop_last() =~= pre);
        }
        if row <= n {
            row = row * 10 + (d - '0' as u32);
        }
        i += 1;
    }
    proof {
        assert(vertex@.subrange(1, len as int) =~= digits);
        if row >= 1 && row <= n {
            assert(n * (n - row) <= 361) by (nonlinear_arith)
                requires
                    1 <= n <= 19,
                    1 <= row <= n,
            ;
        }
    }
    if x < n && row >= 1 && row <= n {
        Some(n * (n - row) + x)
    } else {
        None
    }
}

/// Encoding any cell of the board as a vertex and parsing it back recovers
/// the cell, and the encoding never uses the skipped letter 'I'.
pub proof fn lemma_vertex_round_trip(index: int, n: int)
    requires
        1 <= n <= 19,
        0 <= index < n * n,
    ensures
        vertex_index(vertex_chars(index, n), n) == Some(index),
        forall|j: int|
            0 <= j < vertex_chars(index, n).len() ==> vertex_chars(index, n)[j] != 'I',
{
    let x = index % n;
    let y = index / n;
    let row = n - y;
    vstd::arithmetic::div_mod::lemma_fundamental_div_mod(index, n);
    vstd::arithmetic::div_mod::lemma_mod_division_less_than_divisor(index, n);
    vstd::arithmetic::div_mod::lemma_multiply_divide_lt(index, n, n);
    vstd::arithmetic::div_mod::lemma_div_pos_is_pos(index, n);
    let s = vertex_chars(index, n);
    let c = column_char(x);
    assert(c as u32 == (if x <= 7 {
        65 + x
    } else {
        66 + x
    }));
    assert(fold_upper(c) == c);
    assert(column_of(c) == Some(x));
    let digits = s.subrange(1, s.len() as int);
    assert(digits =~= dec_chars(row));
    if row < 10 {
        let dd = dec_chars(row);
        assert(dd =~= seq![digit_char(row)]);
        assert(digit_char(row) as u32 == 48 + row);
        assert(dd.drop_last() =~= Seq::<char>::empty());
        assert(digits_val(dd.drop_last()) == 0);
        assert(dd.last() == digit_char(row));
        assert(digits_val(dd) == digit_val(digit_char(row)));
        assert(digits_val(dec_chars(row)) == row);
    } else {
        let dd = dec_chars(row);
        assert(dd == dec_chars(row / 10).push(digit_char(row % 10)));
        assert(row / 10 == 1);
        let d1 = dec_chars(1);
        assert(d1 =~= seq![digit_char(1)]);
        assert(digit_char(1) as u32 == 49);
        assert(d1.drop_last() =~= Seq::<char>::empty());
        assert(digits_val(d1.drop_last()) == 0);
        assert(digits_val(d1) == digit_val(digit_char(1)));
        assert(digits_val(d1) == 1);
        assert(digit_char(row % 10) as u32 == 48 + row % 10);
        assert(dd.drop_last() =~= d1);
        assert(dd.last() == digit_char(row % 10));
        assert(digits_val(dd) == digits_val(d1) * 10 + digit_val(digit_char(row % 10)));
        assert(digits_val(dec_chars(row)) == 10 + row % 10);
        assert(row == 10 + row % 10);
    }
    assert(forall|i: int| 0 <= i < digits.len() ==> is_digit(#[trigger] digits[i]));
    assert(vertex_index(s, n) == Some(n * (n - row) + x));
    assert(n * (n - row) + x == index);
    assert forall|j: int| 0 <= j < s.len() implies s[j] != 'I' by {
        if j == 0 {
            assert(c as u32 != 73);
            assert('I' as u32 == 73);
        } else {
            assert(is_digit(s[j]));
            assert(s[j] as u32 <= 57);
        }
    }
}

/// The words of the stone colours as character sequences.
pub open spec fn stone_chars(s: Stone) -> Seq<char> {
    match s {
        Stone::Black => "black"@,
        Stone::White => "white"@,
        Stone::Empty => "empty"@,
    }
}

/// The protocol line announcing the board size.
pub fn boardsize_line(board_size: u32) -> (r: String)
    ensures
        r@ == "boardsize "@ + dec_chars(board_size as int),
{
    let mut s = String::from_str("boardsize ");
    let t = u32_text(board_size);
    s.append(t.as_str());
    s
}

/// The protocol line announcing the komi.
pub fn komi_line(komi: u32) -> (r: String)
    ensures
        r@ == "komi "@ + dec_chars(komi as int),
{
    let mut s = String::from_str("komi ");
    let t = u32_text(komi);
    s.append(t.as_str());
    s
}

/// The protocol line for one outbound command.  A played move names the
/// mover's colour and its vertex; a generation request names the colour this
/// adapter plays.
pub fn command_line(msg: &Message, stone: Stone, board_size: u32) -> (r: String)
    requires
        1 <= board_size <= 19,
        msg matches Message::Play(_, p) ==> *p < board_size * board_size,
    ensures
        msg matches Message::Handicap(c) ==> r@ == "place_free_handicap "@ + dec_chars(*c as int),
        msg matches Message::Play(s, p) ==> r@ == "play "@ + stone_chars(*s) + " "@ + vertex_chars(
            *p as int,
            board_size as int,
        ),
        msg is Genmove ==> r@ == "genmove "@ + stone_chars(stone),
        msg is Quit ==> r@ == "quit"@,
{
    match msg {
        Message::Handicap(count) => {
            let mut s = String::from_str("place_free_handicap ");
            let t = u32_text(*count);
            s.append(t.as_str());
            s
        },
        Message::Play(mover, position) => {
            let mut s = String::from_str("play ");
            s.append(mover.text());
            s.append(" ");
            let v = index_to_vertex(*position, board_size);
            s.append(v.as_str());
            proof {
                assert(s@ =~= "play "@ + stone_chars(*mover) + " "@ + vertex_chars(
                    *position as int,
                    board_size as int,
                ));
            }
            s
        },
        Message::Genmove => {
            let mut s = String::from_str("genmove ");
            s.append(stone.text());
            s
        },
        Message::Quit => String::from_str("quit"),
    }
}


/// The upper-case fold of a text.
pub open spec fn upper_seq(s: Seq<char>) -> Seq<char> {
    s.map_values(|c: char| fold_upper(c))
}

/// The text split on single spaces, empty pieces kept, as `str::split`
/// yields them.
pub open spec fn split_sp(s: Seq<char>) -> Seq<Seq<char>>
    decreases s.len(),
{
    if s.len() == 0 {
        seq![Seq::<char>::empty()]
    } else if s.last() == ' ' {
        split_sp(s.drop_last()).push(Seq::<char>::empty())
    } else {
        let t = split_sp(s.drop_last());
        t.update(t.len() - 1, t.last().push(s.last()))
    }
}

/// Whether `a`, folded to upper case, equals `b`.
#[verifier::loop_isolation(false)]
fn eq_upper(a: &str, b: &str) -> (r: bool)
    ensures
        r == (upper_seq(a@) == b@),
{
    let la = a.unicode_len();
    let lb = b.unicode_len();
    if la != lb {
        proof {
            assert(upper_seq(a@).len() == a@.len());
        }
        return false;
    }
    let mut i: usize = 0;
    while i < la
        invariant
            i <= la,
            la == a@.len(),
            la == b@.len(),
            forall|j: int| 0 <= j < i ==> upper_seq(a@)[j] == b@[j],
        decreases la - i,
    {
        let ca = a.get_char(i);
        let cb = b.get_char(i);
        let ua = ca as u32;
        let fa = if ua >= 'a' as u32 && ua <= 'z' as u32 {
            ua - 32
        } else {
            ua
        };
        proof {
            if ua >= 'a' as u32 && ua <= 'z' as u32 {
                assert(((ua - 32) as char) as u32 == ua - 32);
            }
            assert(fold_upper(ca) as u32 == fa);
        }
        if fa != cb as u32 {
            proof {
                assert(upper_seq(a@)[i as int] == fold_upper(ca));
                assert(fold_upper(ca) != cb);
            }
            return false;
        }
        proof {
            vstd::utf8::char_u32_cast(fold_upper(ca), fa);
            vstd::utf8::char_u32_cast(cb, fa);
            assert(fold_upper(ca) == cb);
            assert(upper_seq(a@)[i as int] == b@[i as int]);
        }
        i += 1;
    }
    proof {
        assert(upper_seq(a@) =~= b@);
    }
    true
}

/// Reads one reply line of the external player, without its terminator, as
/// an inbound event for the match.  Two pieces are a move answer: "pass" or
/// "resign" in either case, else a vertex, and an unreadable vertex is
/// taken as a resignation so a desynchronised player forfeits rather than
/// stalls.  More than two pieces are a handicap suggestion, dropped whole
/// if any vertex is unreadable.  Anything shorter carries no event.
#[verifier::loop_isolation(false)]
#[verifier::rlimit(100)]
pub fn parse_reply(line: &str, stone: Stone, board_size: u32) -> (r: Option<session::Message>)
    requires
        1 <= board_size <= 19,
    ensures
        ({
            let toks = split_sp(line@);
            let n = board_size as int;
            &&& (toks.len() < 2 ==> r is None)
            &&& (toks.len() == 2 ==> (if upper_seq(toks[1]) == "PASS"@ {
                r == Some(session::Message::Pass(stone))
            } else if upper_seq(toks[1]) == "RESIGN"@ {
                r == Some(session::Message::Resign(stone))
            } else {
                match vertex_index(toks[1], n) {
                    Some(v) => r == Some(session::Message::Play(stone, v as usize)),
                    None => r == Some(session::Message::Resign(stone)),
                }
            }))
            &&& (toks.len() > 2 ==> (if forall|j: int|
                1 <= j < toks.len() ==> vertex_index(#[trigger] toks[j], n) is Some {
                &&& r matches Some(m)
                &&& (r matches Some(m) ==> m matches session::Message::Handicap(s, ps) && s
                    == stone && ps@.len() == toks.len() - 1 && (forall|j: int|
                    0 <= j < ps@.len() ==> vertex_index(toks[j + 1], n) == Some(
                        #[trigger] ps@[j] as int,
                    )))
            } else {
                r is None
            }))
        }),
{
    let len = line.unicode_len();
    let ghost full = line@;
    let mut bounds = Vec::<(usize, usize)>::new();
    let mut start: usize = 0;
    let mut i: usize = 0;
    proof {
        assert(full.take(0) =~= Seq::<char>::empty());
    }
    while i < len
        invariant
            i <= len,
            start <= i,
            len == full.len(),
            split_sp(full.take(i as int)).len() == bounds@.len() + 1,
            forall|j: int|
                0 <= j < bounds@.len() ==> (#[trigger] bounds@[j]).0 <= bounds@[j].1 <= len,
            forall|j: int|
                0 <= j < bounds@.len() ==> split_sp(full.take(i as int))[j] == full.subrange(
                    (#[trigger] bounds@[j]).0 as int,
                    bounds@[j].1 as int,
                ),
            split_sp(full.take(i as int)).last() == full.subrange(start as int, i as int),
        decreases len - i,
    {
        let c = line.get_char(i);
        proof {
            assert(full.take(i + 1).drop_last() =~= full.take(i as int));
            assert(full.take(i + 1).last() == full[i as int]);
        }
        if c == ' ' {
            bounds.push((start, i));
            start = i + 1;
            proof {
                assert(full.subrange(start as int, start as int) =~= Seq::<char>::empty());
            }
        } else {
            proof {
                assert(full.subrange(start as int, i as int).push(full[i as int]) =~= full.subrange(
                    start as int,
                    i + 1,
                ));
            }
        }
        i += 1;
    }
    bounds.push((start, len));
    proof {
        assert(full.take(len as int) =~= full);
    }
    let ghost toks = split_sp(full);
    let count = bounds.len();
    if count == 2 {
        let (s1, e1) = bounds[1];
        let tok = line.substring_char(s1, e1);
        proof {
            assert(tok@ == toks[1]);
        }
        if eq_upper(tok, "PASS") {
            Some(session::Message::Pass(stone))
        } else if eq_upper(tok, "RESIGN") {
            Some(session::Message::Resign(stone))
        } else {
            match vertex_to_index(tok, board_size) {
                Some(v) => Some(session::Message::Play(stone, v as usize)),
                None => Some(session::Message::Resign(stone)),
            }
        }
    } else if count > 2 {
        let mut positions = Vec::<usize>::new();
        let mut j: usize = 1;
        while j < count
            invariant
                1 <= j <= count,
                count == bounds@.len(),
                count == toks.len(),
                len == full.len(),
                full == line@,
                positions@.len() == j - 1,
                forall|t: int|
                    0 <= t < bounds@.len() ==> (#[trigger] bounds@[t]).0 <= bounds@[t].1 <= len,
                forall|t: int|
                    0 <= t < bounds@.len() ==> toks[t] == full.subrange(
                        (#[trigger] bounds@[t]).0 as int,
                        bounds@[t].1 as int,
                    ),
                forall|t: int|
                    1 <= t < j ==> vertex_index(#[trigger] toks[t], board_size as int) is Some,
                forall|t: int|
                    0 <= t < positions@.len() ==> vertex_index(toks[t + 1], board_size as int)
                        == Some(#[trigger] positions@[t] as int),
            decreases count - j,
        {
            let (s1, e1) = bounds[j];
            let tok = line.substring_char(s1, e1);
            proof {
                assert(tok@ == toks[j as int]);
            }
            match vertex_to_index(tok, board_size) {
                Some(v) => {
                    positions.push(v as usize);
                },
                None => {
                    return None;
                },
            }
            j += 1;
        }
        Some(session::Message::Handicap(stone, positions))
    } else {
        None
    }
}

} // verus!
