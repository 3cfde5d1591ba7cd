//! The sync protocol: the space-delimited text commands two boards exchange,
//! their canonical rendering, a strict parser, and the effect of a received
//! command on a board replica.

use vstd::prelude::*;

use crate::block::Shape;
use crate::board::Board;
use crate::board::Key;

verus! {

/// A protocol command, as carried on the wire.
#[derive(PartialEq, Eq, Structural, Debug, Clone, Copy)]
pub enum Command {
    /// `NUM_CONNS <n> <token>`: the relay assigns this participant a token.
    NumConns(i32, i32),
    /// `START!`: both participants are present; play begins.
    Start,
    /// `FIRST_BLOCK <token> <shape>`: the named participant's opening piece.
    FirstBlock(i32, Shape),
    /// `KEYSTROKE <token> <key>`: an input event on the named participant's
    /// board.
    Keystroke(i32, Key),
    /// `NEW_BLOCK <token> <shape>`: the piece dealt after the named
    /// participant's piece locked.
    NewBlock(i32, Shape),
    /// `GAME_OVER <token>`: the named participant lost.
    GameOver(i32),
}

/// Every token field is renderable: non-negative.
pub open spec fn cmd_valid(c: Command) -> bool {
    match c {
        Command::NumConns(n, t) => n >= 0 && t >= 0,
        Command::Start => true,
        Command::FirstBlock(t, _) => t >= 0,
        Command::Keystroke(t, _) => t >= 0,
        Command::NewBlock(t, _) => t >= 0,
        Command::GameOver(t) => t >= 0,
    }
}

/// The ASCII digit for a value in 0..=9.
pub open spec fn digit_byte(d: int) -> u8 {
    (48 + d) as u8
}

/// The byte is an ASCII digit.
pub open spec fn is_digit(b: u8) -> bool {
    48 <= b <= 57
}

/// The value of an ASCII digit.
pub open spec fn digit_val(b: u8) -> int {
    b - 48
}

/// The canonical decimal rendering of a non-negative number: most
/// significant digit first, no leading zeros.
pub open spec fn dec_digits(n: int) -> Seq<u8>
    decreases n,
{
    if n < 10 {
        seq![digit_byte(n)]
    } else {
        dec_digits(n / 10).push(digit_byte(n % 10))
    }
}

/// The value a digit string denotes.
pub open spec fn digits_val(s: Seq<u8>) -> int
    decreases s.len(),
{
    if s.len() == 0 {
        0
    } else {
        digits_val(s.drop_last()) * 10 + digit_val(s.last())
    }
}

/// Canonical renderings are digit strings of their own value, at least one
/// digit long, without a leading zero except for zero itself.
pub proof fn lemma_dec_digits_form(n: int)
    requires
        n >= 0,
    ensures
        dec_digits(n).len() >= 1,
        forall|i: int| 0 <= i < dec_digits(n).len() ==> is_digit(#[trigger] dec_digits(n)[i]),
        digits_val(dec_digits(n)) == n,
        n > 0 ==> dec_digits(n)[0] != 48,
        n == 0 ==> dec_digits(n) == seq![48u8],
    decreases n,
{
    if n < 10 {
        assert(dec_digits(n) == seq![digit_byte(n)]);
        assert(dec_digits(n).drop_last() =~= Seq::<u8>::empty());
        assert(dec_digits(n).last() == digit_byte(n));
        assert(digit_val(digit_byte(n)) == n);
        assert(digits_val(dec_digits(n)) == digits_val(Seq::<u8>::empty()) * 10 + n);
        if n == 0 {
            assert(dec_digits(n) =~= seq![48u8]);
        }
    } else {
        lemma_dec_digits_form(n / 10);
        assert(n / 10 >= 1 && n % 10 < 10 && n % 10 >= 0 && n / 10 * 10 + n % 10 == n) by (nonlinear_arith)
            requires
                n >= 10,
        ;
        let tail = dec_digits(n / 10);
        assert(dec_digits(n) == tail.push(digit_byte(n % 10)));
        assert(dec_digits(n).drop_last() =~= tail);
        assert(dec_digits(n).last() == digit_byte(n % 10));
        assert(digit_val(digit_byte(n % 10)) == n % 10);
        assert(digits_val(dec_digits(n)) == digits_val(tail) * 10 + n % 10);
        assert(dec_digits(n)[0] == tail[0]);
        assert forall|i: int| 0 <= i < dec_digits(n).len() implies is_digit(
            #[trigger] dec_digits(n)[i],
        ) by {
            if i < tail.len() {
                assert(dec_digits(n)[i] == tail[i]);
            }
        }
    }
}

/// Digit strings denote non-negative values; one with a non-zero leading
/// digit denotes a positive value.
pub proof fn lemma_digits_val_bounds(s: Seq<u8>)
    requires
        forall|i: int| 0 <= i < s.len() ==> is_digit(#[trigger] s[i]),
    ensures
        digits_val(s) >= 0,
        s.len() >= 1 && s[0] != 48 ==> digits_val(s) >= 1,
    decreases s.len(),
{
    if s.len() > 0 {
        lemma_digits_val_bounds(s.drop_last());
    }
}

/// A digit string in canonical form (no leading zero unless it is "0") is
/// the rendering of its own value.
pub proof fn lemma_digits_reconstruct(s: Seq<u8>)
    requires
        s.len() >= 1,
        forall|i: int| 0 <= i < s.len() ==> is_digit(#[trigger] s[i]),
        s.len() == 1 || s[0] != 48,
    ensures
        dec_digits(digits_val(s)) == s,
    decreases s.len(),
{
    lemma_digits_val_bounds(s);
    if s.len() == 1 {
        assert(s.drop_last() =~= Seq::<u8>::empty());
        assert(is_digit(s[0]));
        assert(s.last() == s[0]);
        assert(digits_val(s) == digits_val(Seq::<u8>::empty()) * 10 + digit_val(s[0]));
        assert(digits_val(s) == digit_val(s[0]));
        assert(0 <= digits_val(s) < 10);
        assert(dec_digits(digits_val(s)) == seq![digit_byte(digit_val(s[0]))]);
        assert(digit_byte(digit_val(s[0])) == s[0]);
        assert(dec_digits(digits_val(s)) =~= s);
    } else {
        let s2 = s.drop_last();
        let d = digit_val(s.last());
        let v2 = digits_val(s2);
        lemma_digits_val_bounds(s2);
        let v = digits_val(s);
        assert(v == v2 * 10 + d);
        assert(v / 10 == v2 && v % 10 == d && v >= 10) by (nonlinear_arith)
            requires
                v == v2 * 10 + d,
                v2 >= 1,
                0 <= d < 10,
        ;
        lemma_digits_reconstruct(s2);
        assert(dec_digits(v) =~= s);
    }
}

/// In one message, one start position has at most one canonical number that
/// ends at a non-digit boundary.
pub proof fn lemma_int_slot_unique(msg: Seq<u8>, start: int, v: int, v2: int, end2: int)
    requires
        0 <= start,
        v >= 0,
        v2 >= 0,
        start + dec_digits(v).len() <= msg.len(),
        msg.subrange(start, start + dec_digits(v).len()) == dec_digits(v),
        start + dec_digits(v).len() == msg.len() || !is_digit(
            msg[start + dec_digits(v).len()],
        ),
        start < end2 <= msg.len(),
        msg.subrange(start, end2) == dec_digits(v2),
        end2 == msg.len() || !is_digit(msg[end2]),
    ensures
        v2 == v,
        end2 == start + dec_digits(v).len(),
{
    lemma_dec_digits_form(v);
    lemma_dec_digits_form(v2);
    let e1 = start + dec_digits(v).len();
    if end2 < e1 {
        assert(is_digit(msg[end2])) by {
            assert(dec_digits(v)[end2 - start] == msg[end2]);
        }
        assert(false);
    }
    if end2 > e1 {
        assert(is_digit(msg[e1])) by {
            assert(dec_digits(v2)[e1 - start] == msg[e1]);
        }
        assert(false);
    }
    assert(dec_digits(v) =~= dec_digits(v2));
    assert(digits_val(dec_digits(v)) == digits_val(dec_digits(v2)));
}

/// Parse the canonical decimal number that starts at `start`: a maximal
/// digit run, no leading zero, value within i32. Returns the value and the
/// position after its last digit.
#[verifier::loop_isolation(false)]
pub fn parse_int_from(msg: &[u8], start: usize) -> (r: Option<(i32, usize)>)
    requires
        start <= msg@.len(),
    ensures
        match r {
            Some(p) => {
                &&& p.0 >= 0
                &&& start < p.1 <= msg@.len()
                &&& msg@.subrange(start as int, p.1 as int) == dec_digits(p.0 as int)
                &&& (p.1 == msg@.len() || !is_digit(msg@[p.1 as int]))
            },
            None => forall|v: int, end: int|
                0 <= v <= i32::MAX && start < end <= msg@.len() && (end == msg@.len()
                    || !is_digit(msg@[end])) ==> msg@.subrange(start as int, end) != dec_digits(
                    v,
                ),
        },
{
    let n = msg.len();
    if start >= n || !(48 <= msg[start] && msg[start] <= 57) {
        proof {
            assert forall|v: int, end: int|
                0 <= v <= i32::MAX && start < end <= msg@.len() && (end == msg@.len() || !is_digit(
                    msg@[end],
                )) implies msg@.subrange(start as int, end) != dec_digits(v) by {
                lemma_dec_digits_form(v);
                if msg@.subrange(start as int, end) == dec_digits(v) {
                    assert(msg@[start as int] == dec_digits(v)[0]);
                }
            }
        }
        return None;
    }
    if msg[start] == 48 {
        if start + 1 < n && 48 <= msg[start + 1] && msg[start + 1] <= 57 {
            proof {
                assert forall|v: int, end: int|
                    0 <= v <= i32::MAX && start < end <= msg@.len() && (end == msg@.len()
                        || !is_digit(msg@[end])) implies msg@.subrange(start as int, end)
                    != dec_digits(v) by {
                    lemma_dec_digits_form(v);
                    if msg@.subrange(start as int, end) == dec_digits(v) {
                        assert(msg@[start as int] == dec_digits(v)[0]);
                        assert(v == 0);
                        assert(end == start + 1);
                    }
                }
            }
            return None;
        }
        proof {
            assert(msg@.subrange(start as int, start as int + 1) =~= dec_digits(0));
        }
        return Some((0, start + 1));
    }
    let mut i = start;
    let mut acc: i64 = 0;
    let mut over = false;
    while i < n && 48 <= msg[i] && msg[i] <= 57
        invariant
            start <= i <= n,
            forall|j: int| start <= j < i ==> is_digit(#[trigger] msg@[j]),
            !over ==> 0 <= acc <= i32::MAX && acc == digits_val(
                msg@.subrange(start as int, i as int),
            ),
            over ==> digits_val(msg@.subrange(start as int, i as int)) > i32::MAX,
            over ==> i > start,
        decreases n - i,
    {
        let ghost pre = msg@.subrange(start as int, i as int);
        let d = msg[i];
        proof {
            assert(msg@.subrange(start as int, i as int + 1).drop_last() =~= pre);
            lemma_digits_val_bounds(pre);
        }
        if !over {
            acc = acc * 10 + ((d - 48) as i64);
            if acc > (i32::MAX as i64) {
                over = true;
                proof {
                    assert(digits_val(msg@.subrange(start as int, i as int + 1)) == acc);
                }
            }
        } else {
            proof {
                let ext = msg@.subrange(start as int, i as int + 1);
                assert(digits_val(ext) == digits_val(pre) * 10 + digit_val(ext.last()));
                assert(digits_val(pre) * 10 >= digits_val(pre)) by (nonlinear_arith)
                    requires
                        digits_val(pre) >= 0,
                ;
            }
        }
        i += 1;
    }
    let ghost run = msg@.subrange(start as int, i as int);
    proof {
        assert(run[0] == msg@[start as int]);
    }
    if over {
        proof {
            assert forall|v: int, end: int|
                0 <= v <= i32::MAX && start < end <= msg@.len() && (end == msg@.len() || !is_digit(
                    msg@[end],
                )) implies msg@.subrange(start as int, end) != dec_digits(v) by {
                if msg@.subrange(start as int, end) == dec_digits(v) {
                    lemma_dec_digits_form(v);
                    if end > i {
                        assert(is_digit(msg@[i as int])) by {
                            assert(dec_digits(v)[i - start] == msg@[i as int]);
                        }
                    } else if end < i {
                        assert(is_digit(msg@[end]));
                    } else {
                        assert(digits_val(dec_digits(v)) == digits_val(run));
                    }
                }
            }
        }
        return None;
    }
    proof {
        lemma_digits_reconstruct(run);
    }
    Some((acc as i32, i))
}

/// Append the canonical decimal rendering of a non-negative number.
pub fn push_digits(out: &mut Vec<u8>, n: i32)
    requires
        n >= 0,
    ensures
        final(out)@ == old(out)@ + dec_digits(n as int),
    decreases n,
{
    if n >= 10 {
        push_digits(out, n / 10);
    }
    out.push(48 + ((n % 10) as u8));
    proof {
        if n < 10 {
            assert(final(out)@ =~= old(out)@ + dec_digits(n as int));
        } else {
            assert(final(out)@ =~= old(out)@ + dec_digits(n as int));
        }
    }
}

/// "NUM_CONNS " as bytes.
pub open spec fn kw_num_conns() -> Seq<u8> {
    seq![78u8, 85, 77, 95, 67, 79, 78, 78, 83, 32]
}

/// "START!" as bytes.
pub open spec fn kw_start() -> Seq<u8> {
    seq![83u8, 84, 65, 82, 84, 33]
}

/// "FIRST_BLOCK " as bytes.
pub open spec fn kw_first_block() -> Seq<u8> {
    seq![70u8, 73, 82, 83, 84, 95, 66, 76, 79, 67, 75, 32]
}

/// "KEYSTROKE " as bytes.
pub open spec fn kw_keystroke() -> Seq<u8> {
    seq![75u8, 69, 89, 83, 84, 82, 79, 75, 69, 32]
}

/// "NEW_BLOCK " as bytes.
pub open spec fn kw_new_block() -> Seq<u8> {
    seq![78u8, 69, 87, 95, 66, 76, 79, 67, 75, 32]
}

/// "GAME_OVER " as bytes.
pub open spec fn kw_game_over() -> Seq<u8> {
    seq![71u8, 65, 77, 69, 95, 79, 86, 69, 82, 32]
}

/// A shape's one-letter wire name.
pub open spec fn shape_word(s: Shape) -> Seq<u8> {
    match s {
        Shape::I => seq![73u8],
        Shape::O => seq![79u8],
        Shape::T => seq![84u8],
        Shape::S => seq![83u8],
        Shape::Z => seq![90u8],
        Shape::J => seq![74u8],
        Shape::L => seq![76u8],
    }
}

/// A key's wire name: UP, DOWN, LEFT, RIGHT or SPACE.
pub open spec fn key_word(k: Key) -> Seq<u8> {
    match k {
        Key::Up => seq![85u8, 80],
        Key::Down => seq![68u8, 79, 87, 78],
        Key::Left => seq![76u8, 69, 70, 84],
        Key::Right => seq![82u8, 73, 71, 72, 84],
        Key::Space => seq![83u8, 80, 65, 67, 69],
    }
}

/// The canonical wire form of a command.
pub open spec fn render_spec(c: Command) -> Seq<u8> {
    match c {
        Command::NumConns(n, t) => kw_num_conns() + dec_digits(n as int) + seq![32u8]
            + dec_digits(t as int),
        Command::Start => kw_start(),
        Command::FirstBlock(t, s) => kw_first_block() + dec_digits(t as int) + seq![32u8]
            + shape_word(s),
        Command::Keystroke(t, k) => kw_keystroke() + dec_digits(t as int) + seq![32u8] + key_word(
            k,
        ),
        Command::NewBlock(t, s) => kw_new_block() + dec_digits(t as int) + seq![32u8] + shape_word(
            s,
        ),
        Command::GameOver(t) => kw_game_over() + dec_digits(t as int),
    }
}

/// A rendering that frames one token between a keyword and a trailing word:
/// how every three-field command is laid out on the wire.
pub open spec fn framed(r: Seq<u8>, kw: Seq<u8>, t: int, word: Seq<u8>) -> bool {
    let dt = dec_digits(t);
    &&& r.len() == kw.len() + dt.len() + 1 + word.len()
    &&& r.subrange(0, kw.len() as int) == kw
    &&& r.subrange(kw.len() as int, (kw.len() + dt.len()) as int) == dt
    &&& r[(kw.len() + dt.len()) as int] == 32u8
    &&& r.subrange((kw.len() + dt.len() + 1) as int, r.len() as int) == word
}

/// A rendering that ends in one token after a keyword.
pub open spec fn framed_int(r: Seq<u8>, kw: Seq<u8>, t: int) -> bool {
    let dt = dec_digits(t);
    &&& r.len() == kw.len() + dt.len()
    &&& r.subrange(0, kw.len() as int) == kw
    &&& r.subrange(kw.len() as int, r.len() as int) == dt
}

/// How each command's rendering decomposes into keyword and fields.
pub proof fn lemma_render_decompose(c: Command)
    requires
        cmd_valid(c),
    ensures
        match c {
            Command::NumConns(n, t) => framed(
                render_spec(c),
                kw_num_conns(),
                n as int,
                dec_digits(t as int),
            ),
            Command::Start => render_spec(c) == kw_start(),
            Command::FirstBlock(t, sh) => framed(
                render_spec(c),
                kw_first_block(),
                t as int,
                shape_word(sh),
            ),
            Command::Keystroke(t, k) => framed(
                render_spec(c),
                kw_keystroke(),
                t as int,
                key_word(k),
            ),
            Command::NewBlock(t, sh) => framed(
                render_spec(c),
                kw_new_block(),
                t as int,
                shape_word(sh),
            ),
            Command::GameOver(t) => framed_int(render_spec(c), kw_game_over(), t as int),
        },
{
    let r = render_spec(c);
    match c {
        Command::NumConns(n, t) => {
            let kw = kw_num_conns();
            let dn = dec_digits(n as int);
            let dt = dec_digits(t as int);
            assert(r.subrange(0, kw.len() as int) =~= kw);
            assert(r.subrange(kw.len() as int, (kw.len() + dn.len()) as int) =~= dn);
            assert(r.subrange((kw.len() + dn.len() + 1) as int, r.len() as int) =~= dt);
        },
        Command::Start => {},
        Command::FirstBlock(t, sh) => {
            let kw = kw_first_block();
            let dt = dec_digits(t as int);
            let w = shape_word(sh);
            assert(r.subrange(0, kw.len() as int) =~= kw);
            assert(r.subrange(kw.len() as int, (kw.len() + dt.len()) as int) =~= dt);
            assert(r.subrange((kw.len() + dt.len() + 1) as int, r.len() as int) =~= w);
        },
        Command::Keystroke(t, k) => {
            let kw = kw_keystroke();
            let dt = dec_digits(t as int);
            let w = key_word(k);
            assert(r.subrange(0, kw.len() as int) =~= kw);
            assert(r.subrange(kw.len() as int, (kw.len() + dt.len()) as int) =~= dt);
            assert(r.subrange((kw.len() + dt.len() + 1) as int, r.len() as int) =~= w);
        },
        Command::NewBlock(t, sh) => {
            let kw = kw_new_block();
            let dt = dec_digits(t as int);
            let w = shape_word(sh);
            assert(r.subrange(0, kw.len() as int) =~= kw);
            assert(r.subrange(kw.len() as int, (kw.len() + dt.len()) as int) =~= dt);
            assert(r.subrange((kw.len() + dt.len() + 1) as int, r.len() as int) =~= w);
        },
        Command::GameOver(t) => {
            let kw = kw_game_over();
            let dt = dec_digits(t as int);
            assert(r.subrange(0, kw.len() as int) =~= kw);
            assert(r.subrange(kw.len() as int, r.len() as int) =~= dt);
        },
    }
}

/// "NUM_CONNS " as a byte vector.
fn kw_num_conns_bytes() -> (v: Vec<u8>)
    ensures
        v@ == kw_num_conns(),
{
    let mut v: Vec<u8> = Vec::new();
    v.push(78);
    v.push(85);
    v.push(77);
    v.push(95);
    v.push(67);
    v.push(79);
    v.push(78);
    v.push(78);
    v.push(83);
    v.push(32);
    proof {
        assert(v@ =~= kw_num_conns());
    }
    v
}

/// "START!" as a byte vector.
fn kw_start_bytes() -> (v: Vec<u8>)
    ensures
        v@ == kw_start(),
{
    let mut v: Vec<u8> = Vec::new();
    v.push(83);
    v.push(84);
    v.push(65);
    v.push(82);
    v.push(84);
    v.push(33);
    proof {
        assert(v@ =~= kw_start());
    }
    v
}

/// "FIRST_BLOCK " as a byte vector.
fn kw_first_block_bytes() -> (v: Vec<u8>)
    ensures
        v@ == kw_first_block(),
{
    let mut v: Vec<u8> = Vec::new();
    v.push(70);
    v.push(73);
    v.push(82);
    v.push(83);
    v.push(84);
    v.push(95);
    v.push(66);
    v.push(76);
    v.push(79);
    v.push(67);
    v.push(75);
    v.push(32);
    proof {
        assert(v@ =~= kw_first_block());
    }
    v
}

/// "KEYSTROKE " as a byte vector.
fn kw_keystroke_bytes() -> (v: Vec<u8>)
    ensures
        v@ == kw_keystroke(),
{
    let mut v: Vec<u8> = Vec::new();
    v.push(75);
    v.push(69);
    v.push(89);
    v.push(83);
    v.push(84);
    v.push(82);
    v.push(79);
    v.push(75);
    v.push(69);
    v.push(32);
    proof {
        assert(v@ =~= kw_keystroke());
    }
    v
}

/// "NEW_BLOCK " as a byte vector.
fn kw_new_block_bytes() -> (v: Vec<u8>)
    ensures
        v@ == kw_new_block(),
{
    let mut v: Vec<u8> = Vec::new();
    v.push(78);
    v.push(69);
    v.push(87);
    v.push(95);
    v.push(66);
    v.push(76);
    v.push(79);
    v.push(67);
    v.push(75);
    v.push(32);
    proof {
        assert(v@ =~= kw_new_block());
    }
    v
}

/// "GAME_OVER " as a byte vector.
fn kw_game_over_bytes() -> (v: Vec<u8>)
    ensures
        v@ == kw_game_over(),
{
    let mut v: Vec<u8> = Vec::new();
    v.push(71);
    v.push(65);
    v.push(77);
    v.push(69);
    v.push(95);
    v.push(79);
    v.push(86);
    v.push(69);
    v.push(82);
    v.push(32);
    proof {
        assert(v@ =~= kw_game_over());
    }
    v
}

/// A shape's wire name as a byte vector.
fn shape_word_bytes(s: Shape) -> (v: Vec<u8>)
    ensures
        v@ == shape_word(s),
{
    let mut v: Vec<u8> = Vec::new();
    match s {
        Shape::I => v.push(73),
        Shape::O => v.push(79),
        Shape::T => v.push(84),
        Shape::S => v.push(83),
        Shape::Z => v.push(90),
        Shape::J => v.push(74),
        Shape::L => v.push(76),
    }
    proof {
        assert(v@ =~= shape_word(s));
    }
    v
}

/// A key's wire name as a byte vector.
fn key_word_bytes(k: Key) -> (v: Vec<u8>)
    ensures
        v@ == key_word(k),
{
    let mut v: Vec<u8> = Vec::new();
    match k {
        Key::Up => {
            v.push(85);
            v.push(80);
        },
        Key::Down => {
            v.push(68);
            v.push(79);
            v.push(87);
            v.push(78);
        },
        Key::Left => {
            v.push(76);
            v.push(69);
            v.push(70);
            v.push(84);
        },
        Key::Right => {
            v.push(82);
            v.push(73);
            v.push(71);
            v.push(72);
            v.push(84);
        },
        Key::Space => {
            v.push(83);
            v.push(80);
            v.push(65);
            v.push(67);
            v.push(69);
        },
    }
    proof {
        assert(v@ =~= key_word(k));
    }
    v
}

/// Whether the message starts with the given word.
#[verifier::loop_isolation(false)]
fn has_prefix(msg: &[u8], word: &Vec<u8>) -> (b: bool)
    ensures
        b == (msg@.len() >= word@.len() && msg@.subrange(0, word@.len() as int) == word@),
{
    if msg.len() < word.len() {
        return false;
    }
    let mut i: usize = 0;
    while i < word.len()
        invariant
            i <= word@.len(),
            forall|j: int| 0 <= j < i ==> msg@[j] == word@[j],
        decreases word@.len() - i,
    {
        if msg[i] != word[i] {
            proof {
                if msg@.subrange(0, word@.len() as int) == word@ {
                    assert(msg@.subrange(0, word@.len() as int)[i as int] == msg@[i as int]);
                }
            }
            return false;
        }
        i += 1;
    }
    proof {
        assert(msg@.subrange(0, word@.len() as int) =~= word@);
    }
    true
}

/// Whether the message equals the given word exactly.
fn bytes_eq(msg: &[u8], word: &Vec<u8>) -> (b: bool)
    ensures
        b == (msg@ == word@),
{
    if msg.len() != word.len() {
        return false;
    }
    let b = has_prefix(msg, word);
    proof {
        assert(msg@.subrange(0, word@.len() as int) =~= msg@);
    }
    b
}

/// Every shape word is a single byte, one of the seven shape letters.
pub proof fn lemma_shape_word_form(s: Shape)
    ensures
        shape_word(s).len() == 1,
        shape_word(s) == seq![shape_word(s)[0]],
        shape_word(s)[0] == 73 || shape_word(s)[0] == 79 || shape_word(s)[0] == 84 || shape_word(
            s,
        )[0] == 83 || shape_word(s)[0] == 90 || shape_word(s)[0] == 74 || shape_word(s)[0] == 76,
{
    match s {
        Shape::I => {
            assert(shape_word(s) =~= seq![shape_word(s)[0]]);
        },
        Shape::O => {
            assert(shape_word(s) =~= seq![shape_word(s)[0]]);
        },
        Shape::T => {
            assert(shape_word(s) =~= seq![shape_word(s)[0]]);
        },
        Shape::S => {
            assert(shape_word(s) =~= seq![shape_word(s)[0]]);
        },
        Shape::Z => {
            assert(shape_word(s) =~= seq![shape_word(s)[0]]);
        },
        Shape::J => {
            assert(shape_word(s) =~= seq![shape_word(s)[0]]);
        },
        Shape::L => {
            assert(shape_word(s) =~= seq![shape_word(s)[0]]);
        },
    }
}

/// Read the shape word that must fill the rest of the message.
fn parse_shape_at(msg: &[u8], from: usize) -> (r: Option<Shape>)
    requires
        from <= msg@.len(),
    ensures
        match r {
            Some(s) => msg@.subrange(from as int, msg@.len() as int) == shape_word(s),
            None => forall|s: Shape|
                msg@.subrange(from as int, msg@.len() as int) != shape_word(s),
        },
{
    let ghost tail = msg@.subrange(from as int, msg@.len() as int);
    if msg.len() - from == 1 {
        let b = msg[from];
        proof {
            assert(tail[0] == msg@[from as int]);
        }
        let r: Option<Shape> = if b == 73 {
            Some(Shape::I)
        } else if b == 79 {
            Some(Shape::O)
        } else if b == 84 {
            Some(Shape::T)
        } else if b == 83 {
            Some(Shape::S)
        } else if b == 90 {
            Some(Shape::Z)
        } else if b == 74 {
            Some(Shape::J)
        } else if b == 76 {
            Some(Shape::L)
        } else {
            None
        };
        proof {
            match r {
                Some(s) => {
                    assert(tail =~= shape_word(s));
                },
                None => {
                    assert forall|s: Shape| tail != shape_word(s) by {
                        if tail == shape_word(s) {
                            lemma_shape_word_form(s);
                            assert(tail[0] == shape_word(s)[0]);
                        }
                    }
                },
            }
        }
        r
    } else {
        proof {
            assert forall|s: Shape| tail != shape_word(s) by {
                if tail == shape_word(s) {
                    lemma_shape_word_form(s);
                }
            }
        }
        None
    }
}

/// Read the key word that must fill the rest of the message.
fn parse_key_at(msg: &[u8], from: usize) -> (r: Option<Key>)
    requires
        from <= msg@.len(),
    ensures
        match r {
            Some(k) => msg@.subrange(from as int, msg@.len() as int) == key_word(k),
            None => forall|k: Key| msg@.subrange(from as int, msg@.len() as int) != key_word(k),
        },
{
    let ghost tail = msg@.subrange(from as int, msg@.len() as int);
    proof {
        assert forall|j: int| 0 <= j < tail.len() implies tail[j] == msg@[from + j] by {}
    }
    let rem = msg.len() - from;
    if rem == 2 && msg[from] == 85 && msg[from + 1] == 80 {
        proof {
            assert(tail =~= key_word(Key::Up));
        }
        Some(Key::Up)
    } else if rem == 4 && msg[from] == 68 && msg[from + 1] == 79 && msg[from + 2] == 87 && msg[from
        + 3] == 78 {
        proof {
            assert(tail =~= key_word(Key::Down));
        }
        Some(Key::Down)
    } else if rem == 4 && msg[from] == 76 && msg[from + 1] == 69 && msg[from + 2] == 70 && msg[from
        + 3] == 84 {
        proof {
            assert(tail =~= key_word(Key::Left));
        }
        Some(Key::Left)
    } else if rem == 5 && msg[from] == 82 && msg[from + 1] == 73 && msg[from + 2] == 71 && msg[from
        + 3] == 72 && msg[from + 4] == 84 {
        proof {
            assert(tail =~= key_word(Key::Right));
        }
        Some(Key::Right)
    } else if rem == 5 && msg[from] == 83 && msg[from + 1] == 80 && msg[from + 2] == 65 && msg[from
        + 3] == 67 && msg[from + 4] == 69 {
        proof {
            assert(tail =~= key_word(Key::Space));
        }
        Some(Key::Space)
    } else {
        proof {
            assert forall|k: Key| tail != key_word(k) by {
                if tail == key_word(k) {
                    match k {
                        Key::Up => {
                            assert(tail.len() == 2);
                            assert(tail[0] == msg@[from as int]);
                            assert(tail[1] == msg@[from + 1]);
                            assert(tail[0] == 85 && tail[1] == 80);
                        },
                        Key::Down => {
                            assert(tail.len() == 4);
                            assert(tail[0] == msg@[from as int]);
                            assert(tail[1] == msg@[from + 1]);
                            assert(tail[2] == msg@[from + 2]);
                            assert(tail[3] == msg@[from + 3]);
                            assert(tail[0] == 68 && tail[1] == 79 && tail[2] == 87 && tail[3]
                                == 78);
                        },
                        Key::Left => {
                            assert(tail.len() == 4);
                            assert(tail[0] == msg@[from as int]);
                            assert(tail[1] == msg@[from + 1]);
                            assert(tail[2] == msg@[from + 2]);
                            assert(tail[3] == msg@[from + 3]);
                            assert(tail[0] == 76 && tail[1] == 69 && tail[2] == 70 && tail[3]
                                == 84);
                        },
                        Key::Right => {
                            assert(tail.len() == 5);
                            assert(tail[0] == msg@[from as int]);
                            assert(tail[1] == msg@[from + 1]);
                            assert(tail[2] == msg@[from + 2]);
                            assert(tail[3] == msg@[from + 3]);
                            assert(tail[4] == msg@[from + 4]);
                            assert(tail[0] == 82 && tail[1] == 73 && tail[2] == 71 && tail[3] == 72
                                && tail[4] == 84);
                        },
                        Key::Space => {
                            assert(tail.len() == 5);
                            assert(tail[0] == msg@[from as int]);
                            assert(tail[1] == msg@[from + 1]);
                            assert(tail[2] == msg@[from + 2]);
                            assert(tail[3] == msg@[from + 3]);
                            assert(tail[4] == msg@[from + 4]);
                            assert(tail[0] == 83 && tail[1] == 80 && tail[2] == 65 && tail[3] == 67
                                && tail[4] == 69);
                        },
                    }
                }
            }
        }
        None
    }
}

/// Render a command in its canonical wire form.
pub fn render_command(c: &Command) -> (out: Vec<u8>)
    requires
        cmd_valid(*c),
    ensures
        out@ == render_spec(*c),
{
    let mut out: Vec<u8> = Vec::new();
    match c {
        Command::NumConns(n, t) => {
            let mut kw = kw_num_conns_bytes();
            out.append(&mut kw);
            push_digits(&mut out, *n);
            out.push(32);
            push_digits(&mut out, *t);
            proof {
                assert(out@ =~= render_spec(*c));
            }
        },
        Command::Start => {
            let mut kw = kw_start_bytes();
            out.append(&mut kw);
            proof {
                assert(out@ =~= render_spec(*c));
            }
        },
        Command::FirstBlock(t, sh) => {
            let mut kw = kw_first_block_bytes();
            out.append(&mut kw);
            push_digits(&mut out, *t);
            out.push(32);
            let mut w = shape_word_bytes(*sh);
            out.append(&mut w);
            proof {
                assert(out@ =~= render_spec(*c));
            }
        },
        Command::Keystroke(t, k) => {
            let mut kw = kw_keystroke_bytes();
            out.append(&mut kw);
            push_digits(&mut out, *t);
            out.push(32);
            let mut w = key_word_bytes(*k);
            out.append(&mut w);
            proof {
                assert(out@ =~= render_spec(*c));
            }
        },
        Command::NewBlock(t, sh) => {
            let mut kw = kw_new_block_bytes();
            out.append(&mut kw);
            push_digits(&mut out, *t);
            out.push(32);
            let mut w = shape_word_bytes(*sh);
            out.append(&mut w);
            proof {
                assert(out@ =~= render_spec(*c));
            }
        },
        Command::GameOver(t) => {
            let mut kw = kw_game_over_bytes();
            out.append(&mut kw);
            push_digits(&mut out, *t);
            proof {
                assert(out@ =~= render_spec(*c));
            }
        },
    }
    out
}

/// A message renders at most one command form: the keyword that heads it
/// decides the form.
proof fn lemma_kw_decides(m: Seq<u8>, c: Command)
    requires
        cmd_valid(c),
        m == render_spec(c),
    ensures
        m.len() >= 10 && m.subrange(0, 10) == kw_num_conns() ==> c matches Command::NumConns(
            _,
            _,
        ),
        m == kw_start() ==> c matches Command::Start,
        m.len() >= 12 && m.subrange(0, 12) == kw_first_block() ==> c matches Command::FirstBlock(
            _,
            _,
        ),
        m.len() >= 10 && m.subrange(0, 10) == kw_keystroke() ==> c matches Command::Keystroke(
            _,
            _,
        ),
        m.len() >= 10 && m.subrange(0, 10) == kw_new_block() ==> c matches Command::NewBlock(
            _,
            _,
        ),
        m.len() >= 10 && m.subrange(0, 10) == kw_game_over() ==> c matches Command::GameOver(_),
{
    lemma_render_decompose(c);
    assert(kw_num_conns().len() == 10 && kw_num_conns()[0] == 78 && kw_num_conns()[1] == 85);
    assert(kw_start().len() == 6 && kw_start()[0] == 83 && kw_start()[1] == 84);
    assert(kw_first_block().len() == 12 && kw_first_block()[0] == 70 && kw_first_block()[1] == 73);
    assert(kw_keystroke().len() == 10 && kw_keystroke()[0] == 75 && kw_keystroke()[1] == 69);
    assert(kw_new_block().len() == 10 && kw_new_block()[0] == 78 && kw_new_block()[1] == 69);
    assert(kw_game_over().len() == 10 && kw_game_over()[0] == 71 && kw_game_over()[1] == 65);
    match c {
        Command::NumConns(nn, tt) => {
            lemma_dec_digits_form(nn as int);
            lemma_dec_digits_form(tt as int);
            assert(m.subrange(0, 10) == kw_num_conns());
            assert(m[0] == 78 && m[1] == 85) by {
                assert(m.subrange(0, 10)[0] == m[0] && m.subrange(0, 10)[1] == m[1]);
            }
            assert(m.len() >= 13);
            if m.len() >= 12 && m.subrange(0, 12) == kw_first_block() {
                assert(m.subrange(0, 12)[0] == m[0]);
            }
            if m.len() >= 10 && m.subrange(0, 10) == kw_keystroke() {
                assert(m.subrange(0, 10)[0] == m[0]);
            }
            if m.len() >= 10 && m.subrange(0, 10) == kw_new_block() {
                assert(m.subrange(0, 10)[1] == m[1]);
            }
            if m.len() >= 10 && m.subrange(0, 10) == kw_game_over() {
                assert(m.subrange(0, 10)[0] == m[0]);
            }
        },
        Command::Start => {
            assert(m.len() == 6);
        },
        Command::FirstBlock(tt, sh) => {
            lemma_dec_digits_form(tt as int);
            lemma_shape_word_form(sh);
            assert(m.subrange(0, 12) == kw_first_block());
            assert(m[0] == 70 && m[1] == 73) by {
                assert(m.subrange(0, 12)[0] == m[0] && m.subrange(0, 12)[1] == m[1]);
            }
            assert(m.len() >= 15);
            if m.len() >= 10 && m.subrange(0, 10) == kw_num_conns() {
                assert(m.subrange(0, 10)[0] == m[0]);
            }
            if m.len() >= 10 && m.subrange(0, 10) == kw_keystroke() {
                assert(m.subrange(0, 10)[0] == m[0]);
            }
            if m.len() >= 10 && m.subrange(0, 10) == kw_new_block() {
                assert(m.subrange(0, 10)[0] == m[0]);
            }
            if m.len() >= 10 && m.subrange(0, 10) == kw_game_over() {
                assert(m.subrange(0, 10)[0] == m[0]);
            }
        },
        Command::Keystroke(tt, kk) => {
            lemma_dec_digits_form(tt as int);
            assert(m.subrange(0, 10) == kw_keystroke());
            assert(m[0] == 75 && m[1] == 69) by {
                assert(m.subrange(0, 10)[0] == m[0] && m.subrange(0, 10)[1] == m[1]);
            }
            assert(key_word(kk).len() >= 2) by {
                match kk {
                    Key::Up => {},
                    Key::Down => {},
                    Key::Left => {},
                    Key::Right => {},
                    Key::Space => {},
                }
            }
            assert(m.len() >= 14);
            if m.len() >= 12 && m.subrange(0, 12) == kw_first_block() {
                assert(m.subrange(0, 12)[0] == m[0]);
            }
            if m.len() >= 10 && m.subrange(0, 10) == kw_num_conns() {
                assert(m.subrange(0, 10)[0] == m[0]);
            }
            if m.len() >= 10 && m.subrange(0, 10) == kw_new_block() {
                assert(m.subrange(0, 10)[0] == m[0]);
            }
            if m.len() >= 10 && m.subrange(0, 10) == kw_game_over() {
                assert(m.subrange(0, 10)[0] == m[0]);
            }
        },
        Command::NewBlock(tt, sh) => {
            lemma_dec_digits_form(tt as int);
            lemma_shape_word_form(sh);
            assert(m.subrange(0, 10) == kw_new_block());
            assert(m[0] == 78 && m[1] == 69) by {
                assert(m.subrange(0, 10)[0] == m[0] && m.subrange(0, 10)[1] == m[1]);
            }
            assert(m.len() >= 13);
            if m.len() >= 12 && m.subrange(0, 12) == kw_first_block() {
                assert(m.subrange(0, 12)[0] == m[0]);
            }
            if m.len() >= 10 && m.subrange(0, 10) == kw_num_conns() {
                assert(m.subrange(0, 10)[1] == m[1]);
            }
            if m.len() >= 10 && m.subrange(0, 10) == kw_keystroke() {
                assert(m.subrange(0, 10)[0] == m[0]);
            }
            if m.len() >= 10 && m.subrange(0, 10) == kw_game_over() {
                assert(m.subrange(0, 10)[0] == m[0]);
            }
        },
        Command::GameOver(tt) => {
            lemma_dec_digits_form(tt as int);
            assert(m.subrange(0, 10) == kw_game_over());
            assert(m[0] == 71 && m[1] == 65) by {
                assert(m.subrange(0, 10)[0] == m[0] && m.subrange(0, 10)[1] == m[1]);
            }
            assert(m.len() >= 11);
            if m.len() >= 12 && m.subrange(0, 12) == kw_first_block() {
                assert(m.subrange(0, 12)[0] == m[0]);
            }
            if m.len() >= 10 && m.subrange(0, 10) == kw_num_conns() {
                assert(m.subrange(0, 10)[0] == m[0]);
            }
            if m.len() >= 10 && m.subrange(0, 10) == kw_keystroke() {
                assert(m.subrange(0, 10)[0] == m[0]);
            }
            if m.len() >= 10 && m.subrange(0, 10) == kw_new_block() {
                assert(m.subrange(0, 10)[1] == m[1]);
            }
        },
    }
}

/// Parse a message that starts with "NUM_CONNS ".
fn parse_num_conns(msg: &[u8]) -> (r: Option<Command>)
    requires
        msg@.len() >= 10,
        msg@.subrange(0, 10) == kw_num_conns(),
    ensures
        match r {
            Some(c) => cmd_valid(c) && msg@ == render_spec(c),
            None => forall|c: Command| cmd_valid(c) ==> msg@ != render_spec(c),
        },
{
    let ghost m = msg@;
    let r1 = parse_int_from(msg, 10);
    let (n, e1): (i32, usize) = match r1 {
        Option::Some(p) => p,
        Option::None => {
            proof {
                assert forall|c: Command| cmd_valid(c) implies m != render_spec(c) by {
                    if m == render_spec(c) {
                        lemma_kw_decides(m, c);
                        match c {
                            Command::NumConns(nn, tt) => {
                                lemma_render_decompose(c);
                                lemma_dec_digits_form(nn as int);
                                assert(kw_num_conns().len() == 10);
                                let dn = dec_digits(nn as int);
                                assert(m.subrange(10, (10 + dn.len()) as int) == dn);
                                assert(m[(10 + dn.len()) as int] == 32);
                                assert(false);
                            },
                            _ => {
                                assert(false);
                            },
                        }
                    }
                }
            }
            return None;
        },
    };
    if !(e1 < msg.len() && msg[e1] == 32) {
        proof {
            assert forall|c: Command| cmd_valid(c) implies m != render_spec(c) by {
                if m == render_spec(c) {
                    lemma_kw_decides(m, c);
                    match c {
                        Command::NumConns(nn, tt) => {
                            lemma_render_decompose(c);
                            lemma_dec_digits_form(nn as int);
                            assert(kw_num_conns().len() == 10);
                            let dn = dec_digits(nn as int);
                            assert(m.subrange(10, (10 + dn.len()) as int) == dn);
                            assert(m[(10 + dn.len()) as int] == 32);
                            lemma_int_slot_unique(m, 10, nn as int, n as int, e1 as int);
                            assert(false);
                        },
                        _ => {
                            assert(false);
                        },
                    }
                }
            }
        }
        return None;
    }
    let r2 = parse_int_from(msg, e1 + 1);
    let (t, e2): (i32, usize) = match r2 {
        Option::Some(p) => p,
        Option::None => {
            proof {
                assert forall|c: Command| cmd_valid(c) implies m != render_spec(c) by {
                    if m == render_spec(c) {
                        lemma_kw_decides(m, c);
                        match c {
                            Command::NumConns(nn, tt) => {
                                lemma_render_decompose(c);
                                lemma_dec_digits_form(nn as int);
                                lemma_dec_digits_form(tt as int);
                                assert(kw_num_conns().len() == 10);
                                let dn = dec_digits(nn as int);
                                let dt = dec_digits(tt as int);
                                assert(m.subrange(10, (10 + dn.len()) as int) == dn);
                                assert(m[(10 + dn.len()) as int] == 32);
                                lemma_int_slot_unique(m, 10, nn as int, n as int, e1 as int);
                                assert(m.subrange(e1 + 1, m.len() as int) == dt);
                                assert(false);
                            },
                            _ => {
                                assert(false);
                            },
                        }
                    }
                }
            }
            return None;
        },
    };
    if e2 != msg.len() {
        proof {
            assert forall|c: Command| cmd_valid(c) implies m != render_spec(c) by {
                if m == render_spec(c) {
                    lemma_kw_decides(m, c);
                    match c {
                        Command::NumConns(nn, tt) => {
                            lemma_render_decompose(c);
                            lemma_dec_digits_form(nn as int);
                            lemma_dec_digits_form(tt as int);
                            assert(kw_num_conns().len() == 10);
                            let dn = dec_digits(nn as int);
                            let dt = dec_digits(tt as int);
                            assert(m.subrange(10, (10 + dn.len()) as int) == dn);
                            assert(m[(10 + dn.len()) as int] == 32);
                            lemma_int_slot_unique(m, 10, nn as int, n as int, e1 as int);
                            assert(m.subrange(e1 + 1, m.len() as int) == dt);
                            lemma_int_slot_unique(m, e1 + 1, tt as int, t as int, e2 as int);
                            assert(false);
                        },
                        _ => {
                            assert(false);
                        },
                    }
                }
            }
        }
        return None;
    }
    let c = Command::NumConns(n, t);
    proof {
        assert(kw_num_conns().len() == 10);
        assert forall|i: int| 0 <= i < m.len() implies m[i] == render_spec(c)[i] by {
            if i < 10 {
                assert(m.subrange(0, 10)[i] == m[i]);
            } else if i < e1 {
                assert(m.subrange(10, e1 as int)[i - 10] == m[i]);
            } else if i > e1 {
                assert(m.subrange(e1 + 1, e2 as int)[i - (e1 + 1)] == m[i]);
            }
        }
        assert(m =~= render_spec(c));
    }
    Some(c)
}

/// Parse a message that starts with "GAME_OVER ".
fn parse_game_over(msg: &[u8]) -> (r: Option<Command>)
    requires
        msg@.len() >= 10,
        msg@.subrange(0, 10) == kw_game_over(),
    ensures
        match r {
            Some(c) => cmd_valid(c) && msg@ == render_spec(c),
            None => forall|c: Command| cmd_valid(c) ==> msg@ != render_spec(c),
        },
{
    let ghost m = msg@;
    let r1 = parse_int_from(msg, 10);
    let (t, e1): (i32, usize) = match r1 {
        Option::Some(p) => p,
        Option::None => {
            proof {
                assert forall|c: Command| cmd_valid(c) implies m != render_spec(c) by {
                    if m == render_spec(c) {
                        lemma_kw_decides(m, c);
                        match c {
                            Command::GameOver(tt) => {
                                lemma_render_decompose(c);
                                lemma_dec_digits_form(tt as int);
                                assert(kw_game_over().len() == 10);
                                let dt = dec_digits(tt as int);
                                assert(m.subrange(10, m.len() as int) == dt);
                                assert(m.len() as int == (10 + dt.len()) as int);
                                assert(false);
                            },
                            _ => {
                                assert(false);
                            },
                        }
                    }
                }
            }
            return None;
        },
    };
    if e1 != msg.len() {
        proof {
            assert forall|c: Command| cmd_valid(c) implies m != render_spec(c) by {
                if m == render_spec(c) {
                    lemma_kw_decides(m, c);
                    match c {
                        Command::GameOver(tt) => {
                            lemma_render_decompose(c);
                            lemma_dec_digits_form(tt as int);
                            assert(kw_game_over().len() == 10);
                            let dt = dec_digits(tt as int);
                            assert(m.subrange(10, m.len() as int) == dt);
                            assert(m.len() as int == (10 + dt.len()) as int);
                            lemma_int_slot_unique(m, 10, tt as int, t as int, e1 as int);
                            assert(false);
                        },
                        _ => {
                            assert(false);
                        },
                    }
                }
            }
        }
        return None;
    }
    let c = Command::GameOver(t);
    proof {
        assert(kw_game_over().len() == 10);
        assert forall|i: int| 0 <= i < m.len() implies m[i] == render_spec(c)[i] by {
            if i < 10 {
                assert(m.subrange(0, 10)[i] == m[i]);
            } else {
                assert(m.subrange(10, e1 as int)[i - 10] == m[i]);
            }
        }
        assert(m =~= render_spec(c));
    }
    Some(c)
}

/// Parse a message that starts with "KEYSTROKE ".
fn parse_keystroke_cmd(msg: &[u8]) -> (r: Option<Command>)
    requires
        msg@.len() >= 10,
        msg@.subrange(0, 10) == kw_keystroke(),
    ensures
        match r {
            Some(c) => cmd_valid(c) && msg@ == render_spec(c),
            None => forall|c: Command| cmd_valid(c) ==> msg@ != render_spec(c),
        },
{
    let ghost m = msg@;
    let r1 = parse_int_from(msg, 10);
    let (n, e1): (i32, usize) = match r1 {
        Option::Some(p) => p,
        Option::None => {
            proof {
                assert forall|c: Command| cmd_valid(c) implies m != render_spec(c) by {
                    if m == render_spec(c) {
                        lemma_kw_decides(m, c);
                        match c {
                            Command::Keystroke(tt, kk) => {
                                lemma_render_decompose(c);
                                lemma_dec_digits_form(tt as int);
                                assert(kw_keystroke().len() == 10);
                                let dn = dec_digits(tt as int);
                                assert(m.subrange(10, (10 + dn.len()) as int) == dn);
                                assert(m[(10 + dn.len()) as int] == 32);
                                assert(false);
                            },
                            _ => {
                                assert(false);
                            },
                        }
                    }
                }
            }
            return None;
        },
    };
    if !(e1 < msg.len() && msg[e1] == 32) {
        proof {
            assert forall|c: Command| cmd_valid(c) implies m != render_spec(c) by {
                if m == render_spec(c) {
                    lemma_kw_decides(m, c);
                    match c {
                        Command::Keystroke(tt, kk) => {
                            lemma_render_decompose(c);
                            lemma_dec_digits_form(tt as int);
                            assert(kw_keystroke().len() == 10);
                            let dn = dec_digits(tt as int);
                            assert(m.subrange(10, (10 + dn.len()) as int) == dn);
                            assert(m[(10 + dn.len()) as int] == 32);
                            lemma_int_slot_unique(m, 10, tt as int, n as int, e1 as int);
                            assert(false);
                        },
                        _ => {
                            assert(false);
                        },
                    }
                }
            }
        }
        return None;
    }
    let rw = parse_key_at(msg, e1 + 1);
    match rw {
        Option::Some(w) => {
            let c = Command::Keystroke(n, w);
            proof {
                assert(kw_keystroke().len() == 10);
                assert forall|i: int| 0 <= i < m.len() implies m[i] == render_spec(c)[i] by {
                    if i < 10 {
                        assert(m.subrange(0, 10)[i] == m[i]);
                    } else if i < e1 {
                        assert(m.subrange(10, e1 as int)[i - 10] == m[i]);
                    } else if i > e1 {
                        assert(m.subrange(e1 + 1, m.len() as int)[i - (e1 + 1)] == m[i]);
                    }
                }
                assert(m =~= render_spec(c));
            }
            Some(c)
        },
        Option::None => {
            proof {
                assert forall|c: Command| cmd_valid(c) implies m != render_spec(c) by {
                    if m == render_spec(c) {
                        lemma_kw_decides(m, c);
                        match c {
                            Command::Keystroke(tt, kk) => {
                                lemma_render_decompose(c);
                                lemma_dec_digits_form(tt as int);
                                
                                assert(kw_keystroke().len() == 10);
                                let dn = dec_digits(tt as int);
                                assert(m.subrange(10, (10 + dn.len()) as int) == dn);
                                assert(m[(10 + dn.len()) as int] == 32);
                                lemma_int_slot_unique(m, 10, tt as int, n as int, e1 as int);
                                assert(m.subrange(e1 + 1, m.len() as int) == key_word(kk));
                                assert(false);
                            },
                            _ => {
                                assert(false);
                            },
                        }
                    }
                }
            }
            None
        },
    }
}

/// Parse a message that starts with "FIRST_BLOCK ".
fn parse_first_block_cmd(msg: &[u8]) -> (r: Option<Command>)
    requires
        msg@.len() >= 12,
        msg@.subrange(0, 12) == kw_first_block(),
    ensures
        match r {
            Some(c) => cmd_valid(c) && msg@ == render_spec(c),
            None => forall|c: Command| cmd_valid(c) ==> msg@ != render_spec(c),
        },
{
    let ghost m = msg@;
    let r1 = parse_int_from(msg, 12);
    let (n, e1): (i32, usize) = match r1 {
        Option::Some(p) => p,
        Option::None => {
            proof {
                assert forall|c: Command| cmd_valid(c) implies m != render_spec(c) by {
                    if m == render_spec(c) {
                        lemma_kw_decides(m, c);
                        match c {
                            Command::FirstBlock(tt, sh) => {
                                lemma_render_decompose(c);
                                lemma_dec_digits_form(tt as int);
                                assert(kw_first_block().len() == 12);
                                let dn = dec_digits(tt as int);
                                assert(m.subrange(12, (12 + dn.len()) as int) == dn);
                                assert(m[(12 + dn.len()) as int] == 32);
                                assert(false);
                            },
                            _ => {
                                assert(false);
                            },
                        }
                    }
                }
            }
            return None;
        },
    };
    if !(e1 < msg.len() && msg[e1] == 32) {
        proof {
            assert forall|c: Command| cmd_valid(c) implies m != render_spec(c) by {
                if m == render_spec(c) {
                    lemma_kw_decides(m, c);
                    match c {
                        Command::FirstBlock(tt, sh) => {
                            lemma_render_decompose(c);
                            lemma_dec_digits_form(tt as int);
                            assert(kw_first_block().len() == 12);
                            let dn = dec_digits(tt as int);
                            assert(m.subrange(12, (12 + dn.len()) as int) == dn);
                            assert(m[(12 + dn.len()) as int] == 32);
                            lemma_int_slot_unique(m, 12, tt as int, n as int, e1 as int);
                            assert(false);
                        },
                        _ => {
                            assert(false);
                        },
                    }
                }
            }
        }
        return None;
    }
    let rw = parse_shape_at(msg, e1 + 1);
    match rw {
        Option::Some(w) => {
            let c = Command::FirstBlock(n, w);
            proof {
                assert(kw_first_block().len() == 12);
                assert forall|i: int| 0 <= i < m.len() implies m[i] == render_spec(c)[i] by {
                    if i < 12 {
                        assert(m.subrange(0, 12)[i] == m[i]);
                    } else if i < e1 {
                        assert(m.subrange(12, e1 as int)[i - 12] == m[i]);
                    } else if i > e1 {
                        assert(m.subrange(e1 + 1, m.len() as int)[i - (e1 + 1)] == m[i]);
                    }
                }
                assert(m =~= render_spec(c));
            }
            Some(c)
        },
        Option::None => {
            proof {
                assert forall|c: Command| cmd_valid(c) implies m != render_spec(c) by {
                    if m == render_spec(c) {
                        lemma_kw_decides(m, c);
                        match c {
                            Command::FirstBlock(tt, sh) => {
                                lemma_render_decompose(c);
                                lemma_dec_digits_form(tt as int);
                                lemma_shape_word_form(sh);
                                assert(kw_first_block().len() == 12);
                                let dn = dec_digits(tt as int);
                                assert(m.subrange(12, (12 + dn.len()) as int) == dn);
                                assert(m[(12 + dn.len()) as int] == 32);
                                lemma_int_slot_unique(m, 12, tt as int, n as int, e1 as int);
                                assert(m.subrange(e1 + 1, m.len() as int) == shape_word(sh));
                                assert(false);
                            },
                            _ => {
                                assert(false);
                            },
                        }
                    }
                }
            }
            None
        },
    }
}

/// Parse a message that starts with "NEW_BLOCK ".
fn parse_new_block_cmd(msg: &[u8]) -> (r: Option<Command>)
    requires
        msg@.len() >= 10,
        msg@.subrange(0, 10) == kw_new_block(),
    ensures
        match r {
            Some(c) => cmd_valid(c) && msg@ == render_spec(c),
            None => forall|c: Command| cmd_valid(c) ==> msg@ != render_spec(c),
        },
{
    let ghost m = msg@;
    let r1 = parse_int_from(msg, 10);
    let (n, e1): (i32, usize) = match r1 {
        Option::Some(p) => p,
        Option::None => {
            proof {
                assert forall|c: Command| cmd_valid(c) implies m != render_spec(c) by {
                    if m == render_spec(c) {
                        lemma_kw_decides(m, c);
                        match c {
                            Command::NewBlock(tt, sh) => {
                                lemma_render_decompose(c);
                                lemma_dec_digits_form(tt as int);
                                assert(kw_new_block().len() == 10);
                                let dn = dec_digits(tt as int);
                                assert(m.subrange(10, (10 + dn.len()) as int) == dn);
                                assert(m[(10 + dn.len()) as int] == 32);
                                assert(false);
                            },
                            _ => {
                                assert(false);
                            },
                        }
                    }
                }
            }
            return None;
        },
    };
    if !(e1 < msg.len() && msg[e1] == 32) {
        proof {
            assert forall|c: Command| cmd_valid(c) implies m != render_spec(c) by {
                if m == render_spec(c) {
                    lemma_kw_decides(m, c);
                    match c {
                        Command::NewBlock(tt, sh) => {
                            lemma_render_decompose(c);
                            lemma_dec_digits_form(tt as int);
                            assert(kw_new_block().len() == 10);
                            let dn = dec_digits(tt as int);
                            assert(m.subrange(10, (10 + dn.len()) as int) == dn);
                            assert(m[(10 + dn.len()) as int] == 32);
                            lemma_int_slot_unique(m, 10, tt as int, n as int, e1 as int);
                            assert(false);
                        },
                        _ => {
                            assert(false);
                        },
                    }
                }
            }
        }
        return None;
    }
    let rw = parse_shape_at(msg, e1 + 1);
    match rw {
        Option::Some(w) => {
            let c = Command::NewBlock(n, w);
            proof {
                assert(kw_new_block().len() == 10);
                assert forall|i: int| 0 <= i < m.len() implies m[i] == render_spec(c)[i] by {
                    if i < 10 {
                        assert(m.subrange(0, 10)[i] == m[i]);
                    } else if i < e1 {
                        assert(m.subrange(10, e1 as int)[i - 10] == m[i]);
                    } else if i > e1 {
                        assert(m.subrange(e1 + 1, m.len() as int)[i - (e1 + 1)] == m[i]);
                    }
                }
                assert(m =~= render_spec(c));
            }
            Some(c)
        },
        Option::None => {
            proof {
                assert forall|c: Command| cmd_valid(c) implies m != render_spec(c) by {
                    if m == render_spec(c) {
                        lemma_kw_decides(m, c);
                        match c {
                            Command::NewBlock(tt, sh) => {
                                lemma_render_decompose(c);
                                lemma_dec_digits_form(tt as int);
                                lemma_shape_word_form(sh);
                                assert(kw_new_block().len() == 10);
                                let dn = dec_digits(tt as int);
                                assert(m.subrange(10, (10 + dn.len()) as int) == dn);
                                assert(m[(10 + dn.len()) as int] == 32);
                                lemma_int_slot_unique(m, 10, tt as int, n as int, e1 as int);
                                assert(m.subrange(e1 + 1, m.len() as int) == shape_word(sh));
                                assert(false);
                            },
                            _ => {
                                assert(false);
                            },
                        }
                    }
                }
            }
            None
        },
    }
}

/// Parse one wire message. Returns the command exactly when the message is
/// the canonical rendering of one; anything else is malformed.
pub fn parse_command(msg: &[u8]) -> (r: Option<Command>)
    ensures
        match r {
            Some(c) => cmd_valid(c) && msg@ == render_spec(c),
            None => forall|c: Command| cmd_valid(c) ==> msg@ != render_spec(c),
        },
{
    let kw_nc = kw_num_conns_bytes();
    if has_prefix(msg, &kw_nc) {
        return parse_num_conns(msg);
    }
    let kw_st = kw_start_bytes();
    if bytes_eq(msg, &kw_st) {
        return Some(Command::Start);
    }
    let kw_fb = kw_first_block_bytes();
    if has_prefix(msg, &kw_fb) {
        return parse_first_block_cmd(msg);
    }
    let kw_ks = kw_keystroke_bytes();
    if has_prefix(msg, &kw_ks) {
        return parse_keystroke_cmd(msg);
    }
    let kw_nb = kw_new_block_bytes();
    if has_prefix(msg, &kw_nb) {
        return parse_new_block_cmd(msg);
    }
    let kw_go = kw_game_over_bytes();
    if has_prefix(msg, &kw_go) {
        return parse_game_over(msg);
    }
    proof {
        let m = msg@;
        assert forall|c: Command| cmd_valid(c) implies m != render_spec(c) by {
            if m == render_spec(c) {
                lemma_render_decompose(c);
                match c {
                    Command::NumConns(nn, tt) => {
                        lemma_dec_digits_form(nn as int);
                        assert(kw_num_conns().len() == 10);
                        assert(false);
                    },
                    Command::Start => {
                        assert(false);
                    },
                    Command::FirstBlock(tt, sh) => {
                        lemma_dec_digits_form(tt as int);
                        assert(kw_first_block().len() == 12);
                        assert(false);
                    },
                    Command::Keystroke(tt, kk) => {
                        lemma_dec_digits_form(tt as int);
                        assert(kw_keystroke().len() == 10);
                        assert(false);
                    },
                    Command::NewBlock(tt, sh) => {
                        lemma_dec_digits_form(tt as int);
                        assert(kw_new_block().len() == 10);
                        assert(false);
                    },
                    Command::GameOver(tt) => {
                        lemma_dec_digits_form(tt as int);
                        assert(kw_game_over().len() == 10);
                        assert(false);
                    },
                }
            }
        }
    }
    None
}

/// What one received command does to a board replica: another participant's
/// keystroke is replayed, their announced piece is adopted, one's own events
/// and the session-control commands leave the board as it is.
pub open spec fn command_post(pre: Board, post: Board, c: Command, own_token: i32) -> bool {
    match c {
        Command::Keystroke(t, k) => if t != own_token {
            crate::board::key_press_post(pre, post, k)
        } else {
            post == pre
        },
        Command::FirstBlock(t, s) => if t != own_token {
            crate::board::new_piece_post(pre, post, s)
        } else {
            post == pre
        },
        Command::NewBlock(t, s) => if t != own_token {
            crate::board::new_piece_post(pre, post, s)
        } else {
            post == pre
        },
        _ => post == pre,
    }
}

/// Replay one received command against a board replica.
pub fn apply_command(board: &mut Board, own_token: i32, cmd: &Command)
    requires
        old(board).wf(),
    ensures
        final(board).wf(),
        command_post(*old(board), *final(board), *cmd, own_token),
{
    match cmd {
        Command::Keystroke(t, k) => {
            if *t != own_token {
                board.handle_key_press(*k);
            }
        },
        Command::FirstBlock(t, s) => {
            if *t != own_token {
                board.set_current_shape(*s);
            }
        },
        Command::NewBlock(t, s) => {
            if *t != own_token {
                board.set_current_shape(*s);
            }
        },
        _ => {},
    }
}

/// Apply one wire message to a board replica: parse it and replay what it
/// says; a malformed message is discarded and the board left untouched.
pub fn apply_message(board: &mut Board, own_token: i32, msg: &[u8]) -> (r: Option<Command>)
    requires
        old(board).wf(),
    ensures
        final(board).wf(),
        match r {
            Some(c) => cmd_valid(c) && msg@ == render_spec(c) && command_post(
                *old(board),
                *final(board),
                c,
                own_token,
            ),
            None => (forall|c: Command| cmd_valid(c) ==> msg@ != render_spec(c)) && *final(board)
                == *old(board),
        },
{
    let pc = parse_command(msg);
    match pc {
        Option::Some(c) => {
            apply_command(board, own_token, &c);
            Some(c)
        },
        Option::None => None,
    }
}

/// Shapes with the same wire name are the same shape.
proof fn lemma_shape_word_inj(a: Shape, b: Shape)
    requires
        shape_word(a) == shape_word(b),
    ensures
        a == b,
{
    lemma_shape_word_form(a);
    lemma_shape_word_form(b);
    assert(shape_word(a)[0] == shape_word(b)[0]);
}

/// Keys with the same wire name are the same key.
proof fn lemma_key_word_inj(a: Key, b: Key)
    requires
        key_word(a) == key_word(b),
    ensures
        a == b,
{
    assert(key_word(a).len() == key_word(b).len());
    assert(key_word(a)[0] == key_word(b)[0]);
}

/// Law: the canonical rendering is injective -- one wire message names at
/// most one command, so a replica that replays parsed messages replays
/// exactly what the sender rendered.
pub proof fn lemma_render_injective(c1: Command, c2: Command)
    requires
        cmd_valid(c1),
        cmd_valid(c2),
        render_spec(c1) == render_spec(c2),
    ensures
        c1 == c2,
{
    let m = render_spec(c1);
    lemma_render_decompose(c1);
    lemma_render_decompose(c2);
    lemma_kw_decides(m, c2);
    assert(kw_num_conns().len() == 10);
    assert(kw_start().len() == 6);
    assert(kw_first_block().len() == 12);
    assert(kw_keystroke().len() == 10);
    assert(kw_new_block().len() == 10);
    assert(kw_game_over().len() == 10);
    match c1 {
        Command::NumConns(n1, t1) => {
            lemma_dec_digits_form(n1 as int);
            lemma_dec_digits_form(t1 as int);
            match c2 {
                Command::NumConns(n2, t2) => {
                    lemma_dec_digits_form(n2 as int);
                    lemma_dec_digits_form(t2 as int);
                    let d1 = dec_digits(n1 as int);
                    let d2 = dec_digits(n2 as int);
                    lemma_int_slot_unique(
                        m,
                        10,
                        n1 as int,
                        n2 as int,
                        (10 + d2.len()) as int,
                    );
                    assert(dec_digits(t1 as int) == dec_digits(t2 as int));
                    assert(digits_val(dec_digits(t1 as int)) == digits_val(dec_digits(t2 as int)));
                },
                _ => {
                    assert(false);
                },
            }
        },
        Command::Start => {
            match c2 {
                Command::Start => {},
                _ => {
                    assert(false);
                },
            }
        },
        Command::FirstBlock(t1, s1) => {
            lemma_dec_digits_form(t1 as int);
            lemma_shape_word_form(s1);
            match c2 {
                Command::FirstBlock(t2, s2) => {
                    lemma_dec_digits_form(t2 as int);
                    lemma_shape_word_form(s2);
                    lemma_int_slot_unique(
                        m,
                        12,
                        t1 as int,
                        t2 as int,
                        (12 + dec_digits(t2 as int).len()) as int,
                    );
                    assert(shape_word(s1) == shape_word(s2));
                    lemma_shape_word_inj(s1, s2);
                },
                _ => {
                    assert(false);
                },
            }
        },
        Command::Keystroke(t1, k1) => {
            lemma_dec_digits_form(t1 as int);
            match c2 {
                Command::Keystroke(t2, k2) => {
                    lemma_dec_digits_form(t2 as int);
                    lemma_int_slot_unique(
                        m,
                        10,
                        t1 as int,
                        t2 as int,
                        (10 + dec_digits(t2 as int).len()) as int,
                    );
                    assert(key_word(k1) == key_word(k2));
                    lemma_key_word_inj(k1, k2);
                },
                _ => {
                    assert(false);
                },
            }
        },
        Command::NewBlock(t1, s1) => {
            lemma_dec_digits_form(t1 as int);
            lemma_shape_word_form(s1);
            match c2 {
                Command::NewBlock(t2, s2) => {
                    lemma_dec_digits_form(t2 as int);
                    lemma_shape_word_form(s2);
                    lemma_int_slot_unique(
                        m,
                        10,
                        t1 as int,
                        t2 as int,
                        (10 + dec_digits(t2 as int).len()) as int,
                    );
                    assert(shape_word(s1) == shape_word(s2));
                    lemma_shape_word_inj(s1, s2);
                },
                _ => {
                    assert(false);
                },
            }
        },
        Command::GameOver(t1) => {
            lemma_dec_digits_form(t1 as int);
            match c2 {
                Command::GameOver(t2) => {
                    lemma_dec_digits_form(t2 as int);
                    assert(dec_digits(t1 as int) == dec_digits(t2 as int));
                    assert(digits_val(dec_digits(t1 as int)) == digits_val(dec_digits(t2 as int)));
                },
                _ => {
                    assert(false);
                },
            }
        },
    }
}

} // verus!
