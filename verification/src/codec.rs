//! Text codec for project persistence: scenes and project configurations
//! are written as one structured document and read back, with a proved
//! round trip.
//!
//! The format is a flat left-to-right concatenation of fields: a number is
//! its decimal digits terminated by `;`, a boolean one of `0`/`1`, a string
//! its character count followed by exactly that many characters (no
//! escaping), and a list its element count followed by the elements.

use vstd::prelude::*;

use crate::synth::{dec_digits, digit_char};

verus! {

/// A decimal digit.
pub open spec fn is_digit(c: char) -> bool {
    c == '0' || c == '1' || c == '2' || c == '3' || c == '4' || c == '5' || c == '6' || c == '7'
        || c == '8' || c == '9'
}

/// The value of a decimal digit.
pub open spec fn digit_val(c: char) -> nat {
    if c == '0' {
        0
    } else if c == '1' {
        1
    } else if c == '2' {
        2
    } else if c == '3' {
        3
    } else if c == '4' {
        4
    } else if c == '5' {
        5
    } else if c == '6' {
        6
    } else if c == '7' {
        7
    } else if c == '8' {
        8
    } else {
        9
    }
}

/// The value of a digit string, most significant first.
pub open spec fn val_of_digits(d: Seq<char>) -> nat
    decreases d.len(),
{
    if d.len() == 0 {
        0
    } else {
        val_of_digits(d.drop_last()) * 10 + digit_val(d.last())
    }
}

/// A number: its decimal digits terminated by `;`.
pub open spec fn e_num(n: nat) -> Seq<char> {
    dec_digits(n) + seq![';']
}

/// The position of the `;` ending a number started at `pos`: the first
/// non-digit must be `;`.
pub open spec fn end_of_num(s: Seq<char>, pos: int) -> Option<int>
    decreases s.len() - pos,
{
    if pos < 0 || pos >= s.len() {
        None
    } else if s[pos] == ';' {
        Some(pos)
    } else if is_digit(s[pos]) {
        end_of_num(s, pos + 1)
    } else {
        None
    }
}

/// Parses a number at `pos`: at least one digit, then `;`; rejects values
/// beyond `u64::MAX`. Yields the value and the position after the `;`.
pub open spec fn p_num(s: Seq<char>, pos: int) -> Option<(nat, int)> {
    match end_of_num(s, pos) {
        Some(e) => if pos < e && val_of_digits(s.subrange(pos, e)) <= u64::MAX {
            Some((val_of_digits(s.subrange(pos, e)), e + 1))
        } else {
            None
        },
        None => None,
    }
}

/// Every character of a decimal rendering is a digit.
proof fn lemma_dec_digits_are_digits(n: nat)
    ensures
        dec_digits(n).len() >= 1,
        forall|i: int| 0 <= i < dec_digits(n).len() ==> is_digit(#[trigger] dec_digits(n)[i]),
    decreases n,
{
    if n >= 10 {
        lemma_dec_digits_are_digits(n / 10);
        assert(forall|i: int|
            0 <= i < dec_digits(n / 10).len() ==> dec_digits(n)[i] == dec_digits(n / 10)[i]);
        assert(dec_digits(n).last() == digit_char(n % 10));
    }
}

/// Reading the digits of `n` back yields `n`.
proof fn lemma_val_of_dec_digits(n: nat)
    ensures
        val_of_digits(dec_digits(n)) == n,
    decreases n,
{
    if n < 10 {
        assert(dec_digits(n) == seq![digit_char(n)]);
        assert(dec_digits(n).last() == digit_char(n));
        assert(dec_digits(n).drop_last() =~= Seq::<char>::empty());
        assert(digit_val(digit_char(n)) == n);
        assert(val_of_digits(Seq::<char>::empty()) == 0);
    } else {
        lemma_val_of_dec_digits(n / 10);
        assert(dec_digits(n).drop_last() =~= dec_digits(n / 10));
        assert(dec_digits(n).last() == digit_char(n % 10));
        assert(digit_val(digit_char(n % 10)) == n % 10);
        vstd::arithmetic::div_mod::lemma_fundamental_div_mod(n as int, 10);
    }
}

/// Scanning all-digit text up to a `;` finds exactly that `;`.
proof fn lemma_end_of_num_scan(s: Seq<char>, pos: int, e: int)
    requires
        0 <= pos <= e < s.len(),
        forall|i: int| pos <= i < e ==> is_digit(#[trigger] s[i]),
        s[e] == ';',
    ensures
        end_of_num(s, pos) == Some(e),
    decreases e - pos,
{
    if pos < e {
        assert(is_digit(s[pos]));
        assert(s[pos] != ';');
        lemma_end_of_num_scan(s, pos + 1, e);
    }
}

/// ROUND TRIP for numbers: parsing an encoded number, whatever follows it,
/// yields the number and stops right after its terminator.
pub proof fn lemma_num_round_trip(s: Seq<char>, pos: int, n: nat)
    requires
        n <= u64::MAX,
        0 <= pos,
        pos + e_num(n).len() <= s.len(),
        s.subrange(pos, pos + e_num(n).len()) == e_num(n),
    ensures
        p_num(s, pos) == Some((n, pos + e_num(n).len())),
{
    let d = dec_digits(n);
    let e = pos + d.len();
    lemma_dec_digits_are_digits(n);
    assert(forall|i: int| 0 <= i < e_num(n).len() ==> e_num(n)[i] == s[pos + i]);
    assert forall|i: int| pos <= i < e implies is_digit(#[trigger] s[i]) by {
        assert(s[i] == e_num(n)[i - pos]);
        assert(e_num(n)[i - pos] == d[i - pos]);
    }
    assert(s[e] == e_num(n)[d.len() as int]);
    assert(s[e] == ';');
    lemma_end_of_num_scan(s, pos, e);
    assert(s.subrange(pos, e) =~= d);
    lemma_val_of_dec_digits(n);
}

/// A longer digit string never has a smaller value.
proof fn lemma_val_mono(d: Seq<char>, k: int)
    requires
        0 <= k <= d.len(),
    ensures
        val_of_digits(d.take(k)) <= val_of_digits(d),
    decreases d.len(),
{
    if k < d.len() {
        assert(d.drop_last().take(k) =~= d.take(k));
        lemma_val_mono(d.drop_last(), k);
    } else {
        assert(d.take(k) =~= d);
    }
}

/// Parses a number at `pos`, exactly as [`p_num`] describes.
pub fn parse_num(s: &str, pos: usize) -> (r: Option<(u64, usize)>)
    requires
        pos <= s@.len() <= usize::MAX,
    ensures
        match r {
            Some((v, q)) => p_num(s@, pos as int) == Some((v as nat, q as int)) && pos < q
                <= s@.len(),
            None => p_num(s@, pos as int) is None,
        },
{
    let n = s.unicode_len();
    let mut i = pos;
    let mut acc: u64 = 0;
    loop
        invariant
            n == s@.len() <= usize::MAX,
            pos <= i <= n,
            forall|m: int| pos <= m < i ==> is_digit(#[trigger] s@[m]),
            acc == val_of_digits(s@.subrange(pos as int, i as int)),
            end_of_num(s@, pos as int) == end_of_num(s@, i as int),
        decreases n - i,
    {
        if i >= n {
            return None;
        }
        let c = s.get_char(i);
        if c == ';' {
            if i == pos {
                // no digits before the terminator
                return None;
            }
            return Some((acc, i + 1));
        }
        let d: u64 = match c {
            '0' => 0,
            '1' => 1,
            '2' => 2,
            '3' => 3,
            '4' => 4,
            '5' => 5,
            '6' => 6,
            '7' => 7,
            '8' => 8,
            '9' => 9,
            _ => {
                return None;
            },
        };
        proof {
            assert(is_digit(s@[i as int]) && digit_val(s@[i as int]) == d);
        }
        if acc > (u64::MAX - d) / 10 {
            // the value would exceed u64::MAX: so does every extension
            proof {
                let iv = i as int;
                assert(acc * 10 + d > u64::MAX) by (nonlinear_arith)
                    requires
                        acc > (u64::MAX - d) / 10,
                        d <= 9,
                        acc <= u64::MAX,
                ;
                if p_num(s@, pos as int) is Some {
                    let e = end_of_num(s@, pos as int)->Some_0;
                    assert(end_of_num(s@, iv) == Some(e));
                    assert(is_digit(s@[iv]) && s@[iv] != ';');
                    assert(end_of_num(s@, iv) == end_of_num(s@, iv + 1));
                    lemma_end_bounds(s@, iv + 1, e);
                    let full = s@.subrange(pos as int, e);
                    assert(full.take(iv + 1 - pos) =~= s@.subrange(pos as int, iv + 1));
                    assert(s@.subrange(pos as int, iv + 1).drop_last() =~= s@.subrange(
                        pos as int,
                        iv,
                    ));
                    assert(val_of_digits(s@.subrange(pos as int, iv + 1)) == acc * 10 + d);
                    lemma_val_mono(full, iv + 1 - pos);
                    assert(val_of_digits(full) > u64::MAX);
                }
            }
            return None;
        }
        proof {
            assert(s@.subrange(pos as int, i + 1).drop_last() =~= s@.subrange(pos as int, i as int));
            assert(s@.subrange(pos as int, i + 1).last() == s@[i as int]);
        }
        acc = acc * 10 + d;
        i = i + 1;
    }
}

/// A found number terminator lies within the text and at or after the scan
/// start.
proof fn lemma_end_bounds(s: Seq<char>, pos: int, e: int)
    requires
        end_of_num(s, pos) == Some(e),
    ensures
        pos <= e < s.len(),
        s[e] == ';',
        forall|i: int| pos <= i < e ==> is_digit(#[trigger] s[i]),
    decreases s.len() - pos,
{
    if s[pos] == ';' {
    } else {
        lemma_end_bounds(s, pos + 1, e);
    }
}

/// Splitting what a concatenation was read from into its two halves.
pub proof fn lemma_subrange_split(s: Seq<char>, pos: int, a: Seq<char>, b: Seq<char>)
    requires
        0 <= pos,
        pos + a.len() + b.len() <= s.len(),
        s.subrange(pos, pos + a.len() + b.len()) == a + b,
    ensures
        s.subrange(pos, pos + a.len()) == a,
        s.subrange(pos + a.len(), pos + a.len() + b.len()) == b,
{
    let c = s.subrange(pos, pos + a.len() + b.len());
    assert(forall|i: int| 0 <= i < c.len() ==> c[i] == s[pos + i]);
    assert(forall|i: int| 0 <= i < a.len() ==> (a + b)[i] == a[i]);
    assert(forall|i: int| 0 <= i < b.len() ==> (a + b)[a.len() + i] == b[i]);
    assert(s.subrange(pos, pos + a.len()) =~= a);
    assert(s.subrange(pos + a.len(), pos + a.len() + b.len()) =~= b);
}

/// A boolean: `1` for true, `0` for false.
pub open spec fn e_bool(b: bool) -> Seq<char> {
    if b {
        seq!['1']
    } else {
        seq!['0']
    }
}

/// Parses a boolean flag.
pub open spec fn p_bool(s: Seq<char>, pos: int) -> Option<(bool, int)> {
    if 0 <= pos < s.len() && s[pos] == '1' {
        Some((true, pos + 1))
    } else if 0 <= pos < s.len() && s[pos] == '0' {
        Some((false, pos + 1))
    } else {
        None
    }
}

/// Parses a boolean flag, exactly as [`p_bool`] describes.
pub fn parse_bool(s: &str, pos: usize) -> (r: Option<(bool, usize)>)
    requires
        pos <= s@.len() <= usize::MAX,
    ensures
        match r {
            Some((v, q)) => p_bool(s@, pos as int) == Some((v, q as int)) && pos < q <= s@.len(),
            None => p_bool(s@, pos as int) is None,
        },
{
    if pos >= s.unicode_len() {
        return None;
    }
    let c = s.get_char(pos);
    if c == '1' {
        Some((true, pos + 1))
    } else if c == '0' {
        Some((false, pos + 1))
    } else {
        None
    }
}

/// A string: its character count, then the characters verbatim.
pub open spec fn e_str(t: Seq<char>) -> Seq<char> {
    e_num(t.len()) + t
}

/// Parses a counted string.
pub open spec fn p_str(s: Seq<char>, pos: int) -> Option<(Seq<char>, int)> {
    match p_num(s, pos) {
        Some((len, q)) => if q + len <= s.len() {
            Some((s.subrange(q, q + len), q + len))
        } else {
            None
        },
        None => None,
    }
}

/// ROUND TRIP for strings.
pub proof fn lemma_str_round_trip(s: Seq<char>, pos: int, t: Seq<char>)
    requires
        t.len() <= u64::MAX,
        0 <= pos,
        pos + e_str(t).len() <= s.len(),
        s.subrange(pos, pos + e_str(t).len()) == e_str(t),
    ensures
        p_str(s, pos) == Some((t, pos + e_str(t).len())),
{
    lemma_subrange_split(s, pos, e_num(t.len()), t);
    lemma_num_round_trip(s, pos, t.len());
}

/// Parses a counted string, exactly as [`p_str`] describes.
pub fn parse_str(s: &str, pos: usize) -> (r: Option<(String, usize)>)
    requires
        pos <= s@.len() <= usize::MAX,
    ensures
        match r {
            Some((v, q)) => p_str(s@, pos as int) == Some((v@, q as int)) && pos < q <= s@.len(),
            None => p_str(s@, pos as int) is None,
        },
{
    let n = s.unicode_len();
    let (len, q) = match parse_num(s, pos) {
        Some(x) => x,
        None => {
            return None;
        },
    };
    if len > (n - q) as u64 {
        return None;
    }
    let len_s = len as usize;
    Some((s.substring_char(q, q + len_s).to_owned(), q + len_s))
}

/// A 32-bit unsigned number.
pub open spec fn e_u32(x: u32) -> Seq<char> {
    e_num(x as nat)
}

/// Parses a number no greater than `u32::MAX`.
pub open spec fn p_u32(s: Seq<char>, pos: int) -> Option<(u32, int)> {
    match p_num(s, pos) {
        Some((v, q)) => if v <= u32::MAX {
            Some((v as u32, q))
        } else {
            None
        },
        None => None,
    }
}

/// ROUND TRIP for 32-bit numbers.
pub proof fn lemma_u32_round_trip(s: Seq<char>, pos: int, x: u32)
    requires
        0 <= pos,
        pos + e_u32(x).len() <= s.len(),
        s.subrange(pos, pos + e_u32(x).len()) == e_u32(x),
    ensures
        p_u32(s, pos) == Some((x, pos + e_u32(x).len())),
{
    lemma_num_round_trip(s, pos, x as nat);
}

/// Parses a 32-bit number, exactly as [`p_u32`] describes.
pub fn parse_u32(s: &str, pos: usize) -> (r: Option<(u32, usize)>)
    requires
        pos <= s@.len() <= usize::MAX,
    ensures
        match r {
            Some((v, q)) => p_u32(s@, pos as int) == Some((v, q as int)) && pos < q <= s@.len(),
            None => p_u32(s@, pos as int) is None,
        },
{
    match parse_num(s, pos) {
        Some((v, q)) => if v <= u32::MAX as u64 {
            Some((v as u32, q))
        } else {
            None
        },
        None => None,
    }
}

/// A machine-sized number (a count or a load order).
pub open spec fn e_usize(x: usize) -> Seq<char> {
    e_num(x as nat)
}

/// Parses a number no greater than `usize::MAX`.
pub open spec fn p_usize(s: Seq<char>, pos: int) -> Option<(usize, int)> {
    match p_num(s, pos) {
        Some((v, q)) => if v <= usize::MAX {
            Some((v as usize, q))
        } else {
            None
        },
        None => None,
    }
}

/// ROUND TRIP for machine-sized numbers.
pub proof fn lemma_usize_round_trip(s: Seq<char>, pos: int, x: usize)
    requires
        0 <= pos,
        pos + e_usize(x).len() <= s.len(),
        s.subrange(pos, pos + e_usize(x).len()) == e_usize(x),
    ensures
        p_usize(s, pos) == Some((x, pos + e_usize(x).len())),
{
    lemma_num_round_trip(s, pos, x as nat);
}

/// Parses a machine-sized number, exactly as [`p_usize`] describes.
pub fn parse_usize(s: &str, pos: usize) -> (r: Option<(usize, usize)>)
    requires
        pos <= s@.len() <= usize::MAX,
    ensures
        match r {
            Some((v, q)) => p_usize(s@, pos as int) == Some((v, q as int)) && pos < q <= s@.len(),
            None => p_usize(s@, pos as int) is None,
        },
{
    match parse_num(s, pos) {
        Some((v, q)) => if v <= usize::MAX as u64 {
            Some((v as usize, q))
        } else {
            None
        },
        None => None,
    }
}

/// A signed 32-bit number, shifted into the unsigned range.
pub open spec fn e_i32(x: i32) -> Seq<char> {
    e_num((x + 0x8000_0000) as nat)
}

/// Parses a signed 32-bit number.
pub open spec fn p_i32(s: Seq<char>, pos: int) -> Option<(i32, int)> {
    match p_num(s, pos) {
        Some((v, q)) => if v <= 0xFFFF_FFFF {
            Some(((v - 0x8000_0000) as i32, q))
        } else {
            None
        },
        None => None,
    }
}

/// ROUND TRIP for signed 32-bit numbers.
pub proof fn lemma_i32_round_trip(s: Seq<char>, pos: int, x: i32)
    requires
        0 <= pos,
        pos + e_i32(x).len() <= s.len(),
        s.subrange(pos, pos + e_i32(x).len()) == e_i32(x),
    ensures
        p_i32(s, pos) == Some((x, pos + e_i32(x).len())),
{
    lemma_num_round_trip(s, pos, (x + 0x8000_0000) as nat);
}

/// Parses a signed 32-bit number, exactly as [`p_i32`] describes.
pub fn parse_i32(s: &str, pos: usize) -> (r: Option<(i32, usize)>)
    requires
        pos <= s@.len() <= usize::MAX,
    ensures
        match r {
            Some((v, q)) => p_i32(s@, pos as int) == Some((v, q as int)) && pos < q <= s@.len(),
            None => p_i32(s@, pos as int) is None,
        },
{
    match parse_num(s, pos) {
        Some((v, q)) => if v <= 0xFFFF_FFFF {
            Some((((v as i64) - 0x8000_0000) as i32, q))
        } else {
            None
        },
        None => None,
    }
}

/// Surfaces that a string's character count fits the machine.
fn note_char_len(s: &str)
    ensures
        s@.len() <= usize::MAX,
{
    let _ = s.unicode_len();
}

/// Appends the encoding of a number.
fn enc_num(out: &mut String, n: u64)
    ensures
        final(out)@ == old(out)@ + e_num(n as nat),
{
    let d = crate::synth::u64_dec(n);
    out.append(d.as_str());
    out.append(";");
    proof {
        reveal_strlit(";");
        assert(";"@ =~= seq![';']);
        assert(final(out)@ =~= old(out)@ + e_num(n as nat));
    }
}

/// Appends the encoding of a boolean.
fn enc_bool(out: &mut String, b: bool)
    ensures
        final(out)@ == old(out)@ + e_bool(b),
{
    if b {
        out.append("1");
        proof {
            reveal_strlit("1");
            assert(final(out)@ =~= old(out)@ + e_bool(b));
        }
    } else {
        out.append("0");
        proof {
            reveal_strlit("0");
            assert(final(out)@ =~= old(out)@ + e_bool(b));
        }
    }
}

/// Appends the encoding of a string.
fn enc_str(out: &mut String, t: &str)
    requires
        t@.len() <= u64::MAX,
    ensures
        final(out)@ == old(out)@ + e_str(t@),
{
    let len = t.unicode_len();
    enc_num(out, len as u64);
    out.append(t);
    proof {
        assert(final(out)@ =~= old(out)@ + e_str(t@));
    }
}

/// Appends the encoding of a signed 32-bit number.
fn enc_i32(out: &mut String, x: i32)
    ensures
        final(out)@ == old(out)@ + e_i32(x),
{
    enc_num(out, ((x as i64) + 0x8000_0000) as u64);
}

/// The mathematical contents of a tile.
pub ghost struct TileV {
    pub sheet: Seq<char>,
    pub sheet_id: (u32, u32),
    pub position: (i32, i32),
}

impl View for crate::scene::Tile {
    type V = TileV;

    open spec fn view(&self) -> TileV {
        TileV { sheet: self.sheet@, sheet_id: self.sheet_id, position: self.position }
    }
}

/// The tile's strings fit the machine.
pub open spec fn tile_v_bounded(t: TileV) -> bool {
    t.sheet.len() <= u64::MAX
}

/// A tile: its sheet, sub-tile coordinate, and world position.
pub open spec fn e_tile(t: TileV) -> Seq<char> {
    e_str(t.sheet) + e_u32(t.sheet_id.0) + e_u32(t.sheet_id.1) + e_i32(t.position.0) + e_i32(
        t.position.1,
    )
}

/// Parses a tile.
pub open spec fn p_tile(s: Seq<char>, pos: int) -> Option<(TileV, int)> {
    match p_str(s, pos) {
        Some((sheet, q1)) => match p_u32(s, q1) {
            Some((c0, q2)) => match p_u32(s, q2) {
                Some((c1, q3)) => match p_i32(s, q3) {
                    Some((x, q4)) => match p_i32(s, q4) {
                        Some((y, q5)) => Some(
                            (TileV { sheet, sheet_id: (c0, c1), position: (x, y) }, q5),
                        ),
                        None => None,
                    },
                    None => None,
                },
                None => None,
            },
            None => None,
        },
        None => None,
    }
}

/// ROUND TRIP for tiles.
#[verifier::spinoff_prover]
#[verifier::rlimit(100)]
pub proof fn lemma_tile_round_trip(s: Seq<char>, pos: int, t: TileV)
    requires
        tile_v_bounded(t),
        0 <= pos,
        pos + e_tile(t).len() <= s.len(),
        s.subrange(pos, pos + e_tile(t).len()) == e_tile(t),
    ensures
        p_tile(s, pos) == Some((t, pos + e_tile(t).len())),
{
    let a1 = e_str(t.sheet);
    let a2 = e_u32(t.sheet_id.0);
    let a3 = e_u32(t.sheet_id.1);
    let a4 = e_i32(t.position.0);
    let a5 = e_i32(t.position.1);
    assert(e_tile(t) =~= a1 + (a2 + (a3 + (a4 + a5))));
    lemma_subrange_split(s, pos, a1, a2 + (a3 + (a4 + a5)));
    lemma_str_round_trip(s, pos, t.sheet);
    let p1 = pos + a1.len();
    lemma_subrange_split(s, p1, a2, a3 + (a4 + a5));
    lemma_u32_round_trip(s, p1, t.sheet_id.0);
    let p2 = p1 + a2.len();
    lemma_subrange_split(s, p2, a3, a4 + a5);
    lemma_u32_round_trip(s, p2, t.sheet_id.1);
    let p3 = p2 + a3.len();
    lemma_subrange_split(s, p3, a4, a5);
    lemma_i32_round_trip(s, p3, t.position.0);
    let p4 = p3 + a4.len();
    lemma_i32_round_trip(s, p4, t.position.1);
}

/// Parses a tile, exactly as [`p_tile`] describes.
pub fn parse_tile(s: &str, pos: usize) -> (r: Option<(crate::scene::Tile, usize)>)
    requires
        pos <= s@.len() <= usize::MAX,
    ensures
        match r {
            Some((v, q)) => p_tile(s@, pos as int) == Some((v@, q as int)) && pos < q <= s@.len(),
            None => p_tile(s@, pos as int) is None,
        },
{
    let (sheet, q1) = match parse_str(s, pos) {
        Some(x) => x,
        None => {
            return None;
        },
    };
    let (c0, q2) = match parse_u32(s, q1) {
        Some(x) => x,
        None => {
            return None;
        },
    };
    let (c1, q3) = match parse_u32(s, q2) {
        Some(x) => x,
        None => {
            return None;
        },
    };
    let (x, q4) = match parse_i32(s, q3) {
        Some(v) => v,
        None => {
            return None;
        },
    };
    let (y, q5) = match parse_i32(s, q4) {
        Some(v) => v,
        None => {
            return None;
        },
    };
    Some((crate::scene::Tile { sheet, sheet_id: (c0, c1), position: (x, y) }, q5))
}

/// Appends the encoding of a tile.
fn enc_tile(out: &mut String, t: &crate::scene::Tile)
    ensures
        final(out)@ == old(out)@ + e_tile(t@),
        tile_v_bounded(t@),
{
    note_char_len(t.sheet.as_str());
    enc_str(out, t.sheet.as_str());
    enc_num(out, (t.sheet_id.0 as u64));
    enc_num(out, (t.sheet_id.1 as u64));
    enc_i32(out, t.position.0);
    enc_i32(out, t.position.1);
    proof {
        assert(final(out)@ =~= old(out)@ + e_tile(t@));
    }
}

/// One grid entry: its cell, then its tile.
pub open spec fn e_entry(k: (i32, i32), t: TileV) -> Seq<char> {
    e_i32(k.0) + e_i32(k.1) + e_tile(t)
}

/// Parses one grid entry.
pub open spec fn p_entry(s: Seq<char>, pos: int) -> Option<(((i32, i32), TileV), int)> {
    match p_i32(s, pos) {
        Some((kx, q1)) => match p_i32(s, q1) {
            Some((ky, q2)) => match p_tile(s, q2) {
                Some((t, q3)) => Some((((kx, ky), t), q3)),
                None => None,
            },
            None => None,
        },
        None => None,
    }
}

/// ROUND TRIP for grid entries.
#[verifier::spinoff_prover]
#[verifier::rlimit(100)]
pub proof fn lemma_entry_round_trip(s: Seq<char>, pos: int, k: (i32, i32), t: TileV)
    requires
        tile_v_bounded(t),
        0 <= pos,
        pos + e_entry(k, t).len() <= s.len(),
        s.subrange(pos, pos + e_entry(k, t).len()) == e_entry(k, t),
    ensures
        p_entry(s, pos) == Some((((k, t)), pos + e_entry(k, t).len())),
{
    let a1 = e_i32(k.0);
    let a2 = e_i32(k.1);
    let a3 = e_tile(t);
    assert(e_entry(k, t) =~= a1 + (a2 + a3));
    lemma_subrange_split(s, pos, a1, a2 + a3);
    lemma_i32_round_trip(s, pos, k.0);
    let p1 = pos + a1.len();
    lemma_subrange_split(s, p1, a2, a3);
    lemma_i32_round_trip(s, p1, k.1);
    let p2 = p1 + a2.len();
    lemma_tile_round_trip(s, p2, t);
}

/// The entry sequence of a layer's grid, in storage order.
pub open spec fn entries_view(es: Seq<((i32, i32), crate::scene::Tile)>) -> Seq<
    ((i32, i32), TileV),
> {
    es.map_values(|e: ((i32, i32), crate::scene::Tile)| (e.0, e.1@))
}

/// Every entry's tile fits the machine.
pub open spec fn entries_bounded(ts: Seq<((i32, i32), TileV)>) -> bool {
    forall|i: int| 0 <= i < ts.len() ==> tile_v_bounded((#[trigger] ts[i]).1)
}

/// The entries of a grid, first to last.
pub open spec fn e_entries(ts: Seq<((i32, i32), TileV)>) -> Seq<char>
    decreases ts.len(),
{
    if ts.len() == 0 {
        Seq::empty()
    } else {
        e_entry(ts[0].0, ts[0].1) + e_entries(ts.drop_first())
    }
}

/// Parses `count` grid entries onto `acc`.
pub open spec fn p_entries(s: Seq<char>, pos: int, count: nat, acc: Seq<((i32, i32), TileV)>) -> Option<
    (Seq<((i32, i32), TileV)>, int),
>
    decreases count,
{
    if count == 0 {
        Some((acc, pos))
    } else {
        match p_entry(s, pos) {
            Some((e, q)) => p_entries(s, q, (count - 1) as nat, acc.push(e)),
            None => None,
        }
    }
}

/// ROUND TRIP for entry lists.
pub proof fn lemma_entries_round_trip(
    s: Seq<char>,
    pos: int,
    ts: Seq<((i32, i32), TileV)>,
    acc: Seq<((i32, i32), TileV)>,
)
    requires
        entries_bounded(ts),
        0 <= pos,
        pos + e_entries(ts).len() <= s.len(),
        s.subrange(pos, pos + e_entries(ts).len()) == e_entries(ts),
    ensures
        p_entries(s, pos, ts.len(), acc) == Some((acc + ts, pos + e_entries(ts).len())),
    decreases ts.len(),
{
    if ts.len() == 0 {
        assert(acc + ts =~= acc);
    } else {
        let hd = e_entry(ts[0].0, ts[0].1);
        let tl = e_entries(ts.drop_first());
        lemma_subrange_split(s, pos, hd, tl);
        lemma_entry_round_trip(s, pos, ts[0].0, ts[0].1);
        assert(entries_bounded(ts.drop_first())) by {
            assert(forall|i: int| 0 <= i < ts.drop_first().len() ==> ts.drop_first()[i] == ts[i + 1]);
        }
        lemma_entries_round_trip(s, pos + hd.len(), ts.drop_first(), acc.push(ts[0]));
        assert(acc.push(ts[0]) + ts.drop_first() =~= acc + ts);
    }
}

/// The mathematical contents of a layer.
pub ghost struct LayerV {
    pub tiles: Seq<((i32, i32), TileV)>,
    pub visible: bool,
    pub collision: bool,
    pub tile_sheet: Seq<char>,
    pub current_tile_item: i32,
}

impl View for crate::scene::Layer {
    type V = LayerV;

    open spec fn view(&self) -> LayerV {
        LayerV {
            tiles: entries_view(self.tiles.entries@),
            visible: self.visible,
            collision: self.collision,
            tile_sheet: self.tile_sheet@,
            current_tile_item: self.current_tile_item,
        }
    }
}

/// The layer's strings and counts fit the machine.
pub open spec fn layer_v_bounded(l: LayerV) -> bool {
    &&& l.tiles.len() <= u64::MAX
    &&& entries_bounded(l.tiles)
    &&& l.tile_sheet.len() <= u64::MAX
}

/// A layer: its entry count and entries, flags, sheet, and selection index.
pub open spec fn e_layer(l: LayerV) -> Seq<char> {
    e_num(l.tiles.len()) + e_entries(l.tiles) + e_bool(l.visible) + e_bool(l.collision) + e_str(
        l.tile_sheet,
    ) + e_i32(l.current_tile_item)
}

/// Parses a layer.
pub open spec fn p_layer(s: Seq<char>, pos: int) -> Option<(LayerV, int)> {
    match p_num(s, pos) {
        Some((count, q1)) => match p_entries(s, q1, count, Seq::empty()) {
            Some((tiles, q2)) => match p_bool(s, q2) {
                Some((visible, q3)) => match p_bool(s, q3) {
                    Some((collision, q4)) => match p_str(s, q4) {
                        Some((tile_sheet, q5)) => match p_i32(s, q5) {
                            Some((item, q6)) => Some(
                                (
                                    LayerV {
                                        tiles,
                                        visible,
                                        collision,
                                        tile_sheet,
                                        current_tile_item: item,
                                    },
                                    q6,
                                ),
                            ),
                            None => None,
                        },
                        None => None,
                    },
                    None => None,
                },
                None => None,
            },
            None => None,
        },
        None => None,
    }
}

/// ROUND TRIP for layers.
#[verifier::spinoff_prover]
#[verifier::rlimit(100)]
pub proof fn lemma_layer_round_trip(s: Seq<char>, pos: int, l: LayerV)
    requires
        layer_v_bounded(l),
        0 <= pos,
        pos + e_layer(l).len() <= s.len(),
        s.subrange(pos, pos + e_layer(l).len()) == e_layer(l),
    ensures
        p_layer(s, pos) == Some((l, pos + e_layer(l).len())),
{
    let a1 = e_num(l.tiles.len());
    let a2 = e_entries(l.tiles);
    let a3 = e_bool(l.visible);
    let a4 = e_bool(l.collision);
    let a5 = e_str(l.tile_sheet);
    let a6 = e_i32(l.current_tile_item);
    assert(e_layer(l) =~= a1 + (a2 + (a3 + (a4 + (a5 + a6)))));
    lemma_subrange_split(s, pos, a1, a2 + (a3 + (a4 + (a5 + a6))));
    lemma_num_round_trip(s, pos, l.tiles.len());
    let p1 = pos + a1.len();
    lemma_subrange_split(s, p1, a2, a3 + (a4 + (a5 + a6)));
    lemma_entries_round_trip(s, p1, l.tiles, Seq::empty());
    assert(Seq::empty() + l.tiles =~= l.tiles);
    let p2 = p1 + a2.len();
    lemma_subrange_split(s, p2, a3, a4 + (a5 + a6));
    assert(s[p2] == a3[0]);
    let p3 = p2 + a3.len();
    lemma_subrange_split(s, p3, a4, a5 + a6);
    assert(s[p3] == a4[0]);
    let p4 = p3 + a4.len();
    lemma_subrange_split(s, p4, a5, a6);
    lemma_str_round_trip(s, p4, l.tile_sheet);
    let p5 = p4 + a5.len();
    lemma_i32_round_trip(s, p5, l.current_tile_item);
}

/// Parses a layer, exactly as [`p_layer`] describes.
pub fn parse_layer(s: &str, pos: usize) -> (r: Option<(crate::scene::Layer, usize)>)
    requires
        pos <= s@.len() <= usize::MAX,
    ensures
        match r {
            Some((v, q)) => p_layer(s@, pos as int) == Some((v@, q as int)) && pos < q <= s@.len(),
            None => p_layer(s@, pos as int) is None,
        },
{
    let (count, q1) = match parse_num(s, pos) {
        Some(x) => x,
        None => {
            return None;
        },
    };
    let mut entries: Vec<((i32, i32), crate::scene::Tile)> = Vec::new();
    let mut cur = q1;
    let mut k: u64 = 0;
    proof {
        assert(entries_view(entries@) =~= Seq::<((i32, i32), TileV)>::empty());
    }
    while k < count
        invariant
            pos < cur <= s@.len() <= usize::MAX,
            k <= count,
            p_num(s@, pos as int) == Some((count as nat, q1 as int)),
            p_entries(s@, q1 as int, count as nat, Seq::empty()) == p_entries(
                s@,
                cur as int,
                (count - k) as nat,
                entries_view(entries@),
            ),
        decreases count - k,
    {
        let (e, q) = match parse_tile_entry(s, cur) {
            Some(x) => x,
            None => {
                return None;
            },
        };
        proof {
            assert(entries_view(entries@.push(e)) =~= entries_view(entries@).push((e.0, e.1@)));
        }
        entries.push(e);
        cur = q;
        k = k + 1;
    }
    let (visible, q3) = match parse_bool(s, cur) {
        Some(x) => x,
        None => {
            return None;
        },
    };
    let (collision, q4) = match parse_bool(s, q3) {
        Some(x) => x,
        None => {
            return None;
        },
    };
    let (tile_sheet, q5) = match parse_str(s, q4) {
        Some(x) => x,
        None => {
            return None;
        },
    };
    let (item, q6) = match parse_i32(s, q5) {
        Some(x) => x,
        None => {
            return None;
        },
    };
    let layer = crate::scene::Layer {
        tiles: crate::cellmap::CellMap { entries },
        visible,
        collision,
        tile_sheet,
        current_tile_item: item,
    };
    Some((layer, q6))
}

/// Parses one grid entry, exactly as [`p_entry`] describes.
fn parse_tile_entry(s: &str, pos: usize) -> (r: Option<
    (((i32, i32), crate::scene::Tile), usize),
>)
    requires
        pos <= s@.len() <= usize::MAX,
    ensures
        match r {
            Some((e, q)) => p_entry(s@, pos as int) == Some(((e.0, e.1@), q as int)) && pos < q
                <= s@.len(),
            None => p_entry(s@, pos as int) is None,
        },
{
    let (kx, q1) = match parse_i32(s, pos) {
        Some(x) => x,
        None => {
            return None;
        },
    };
    let (ky, q2) = match parse_i32(s, q1) {
        Some(x) => x,
        None => {
            return None;
        },
    };
    let (t, q3) = match parse_tile(s, q2) {
        Some(x) => x,
        None => {
            return None;
        },
    };
    Some((((kx, ky), t), q3))
}

/// Appends the encoding of a layer.
fn enc_layer(out: &mut String, l: &crate::scene::Layer)
    ensures
        final(out)@ == old(out)@ + e_layer(l@),
        layer_v_bounded(l@),
{
    let n = l.tiles.entries.len();
    enc_num(out, n as u64);
    let ghost mid0 = out@;
    for i in 0..n
        invariant
            n == l.tiles.entries@.len(),
            out@ == mid0 + e_entries(entries_view(l.tiles.entries@.take(i as int))),
            entries_bounded(entries_view(l.tiles.entries@.take(i as int))),
    {
        let e = &l.tiles.entries[i];
        enc_i32(out, e.0.0);
        enc_i32(out, e.0.1);
        enc_tile(out, &e.1);
        proof {
            lemma_e_entries_snoc(entries_view(l.tiles.entries@.take(i as int)), (e.0, e.1@));
            assert(entries_view(l.tiles.entries@.take(i + 1)) =~= entries_view(
                l.tiles.entries@.take(i as int),
            ).push((e.0, e.1@)));
            assert(out@ =~= mid0 + e_entries(entries_view(l.tiles.entries@.take(i + 1))));
        }
    }
    proof {
        assert(l.tiles.entries@.take(n as int) =~= l.tiles.entries@);
    }
    enc_bool(out, l.visible);
    enc_bool(out, l.collision);
    note_char_len(l.tile_sheet.as_str());
    enc_str(out, l.tile_sheet.as_str());
    enc_i32(out, l.current_tile_item);
    proof {
        assert(final(out)@ =~= old(out)@ + e_layer(l@));
    }
}

/// Appending one entry extends the entry encoding at its end.
proof fn lemma_e_entries_snoc(ts: Seq<((i32, i32), TileV)>, x: ((i32, i32), TileV))
    ensures
        e_entries(ts.push(x)) == e_entries(ts) + e_entry(x.0, x.1),
    decreases ts.len(),
{
    if ts.len() == 0 {
        assert(ts.push(x)[0] == x);
        assert(ts.push(x).drop_first() =~= Seq::<((i32, i32), TileV)>::empty());
        assert(e_entries(Seq::<((i32, i32), TileV)>::empty()) == Seq::<char>::empty());
        assert(e_entries(ts.push(x)) == e_entry(x.0, x.1) + e_entries(
            Seq::<((i32, i32), TileV)>::empty(),
        ));
        assert(e_entries(ts.push(x)) =~= e_entries(ts) + e_entry(x.0, x.1));
    } else {
        assert(ts.push(x)[0] == ts[0]);
        assert(ts.push(x).drop_first() =~= ts.drop_first().push(x));
        assert(e_entries(ts.push(x)) == e_entry(ts[0].0, ts[0].1) + e_entries(
            ts.drop_first().push(x),
        ));
        lemma_e_entries_snoc(ts.drop_first(), x);
        assert(e_entries(ts.push(x)) =~= e_entries(ts) + e_entry(x.0, x.1));
    }
}

/// The mathematical contents of a tile-sheet.
pub ghost struct SheetV {
    pub filename: Seq<char>,
    pub path: Seq<char>,
    pub absolute_path: Seq<char>,
    pub tile_size: (u32, u32),
    pub sheet_size: (u32, u32),
}

impl View for crate::scene::TileSheet {
    type V = SheetV;

    open spec fn view(&self) -> SheetV {
        SheetV {
            filename: self.filename@,
            path: self.path@,
            absolute_path: self.absolute_path@,
            tile_size: self.tile_size,
            sheet_size: self.sheet_size,
        }
    }
}

/// The sheet's strings fit the machine.
pub open spec fn sheet_v_bounded(t: SheetV) -> bool {
    t.filename.len() <= u64::MAX && t.path.len() <= u64::MAX && t.absolute_path.len() <= u64::MAX
}

/// A tile-sheet: its names and its pixel geometry.
pub open spec fn e_sheet(t: SheetV) -> Seq<char> {
    e_str(t.filename) + e_str(t.path) + e_str(t.absolute_path) + e_u32(t.tile_size.0) + e_u32(
        t.tile_size.1,
    ) + e_u32(t.sheet_size.0) + e_u32(t.sheet_size.1)
}

/// Parses a tile-sheet.
pub open spec fn p_sheet(s: Seq<char>, pos: int) -> Option<(SheetV, int)> {
    match p_str(s, pos) {
        Some((filename, q1)) => match p_str(s, q1) {
            Some((path, q2)) => match p_str(s, q2) {
                Some((absolute_path, q3)) => match p_u32(s, q3) {
                    Some((t0, q4)) => match p_u32(s, q4) {
                        Some((t1, q5)) => match p_u32(s, q5) {
                            Some((s0, q6)) => match p_u32(s, q6) {
                                Some((s1, q7)) => Some(
                                    (
                                        SheetV {
                                            filename,
                                            path,
                                            absolute_path,
                                            tile_size: (t0, t1),
                                            sheet_size: (s0, s1),
                                        },
                                        q7,
                                    ),
                                ),
                                None => None,
                            },
                            None => None,
                        },
                        None => None,
                    },
                    None => None,
                },
                None => None,
            },
            None => None,
        },
        None => None,
    }
}

/// ROUND TRIP for tile-sheets.
#[verifier::spinoff_prover]
#[verifier::rlimit(100)]
pub proof fn lemma_sheet_round_trip(s: Seq<char>, pos: int, t: SheetV)
    requires
        sheet_v_bounded(t),
        0 <= pos,
        pos + e_sheet(t).len() <= s.len(),
        s.subrange(pos, pos + e_sheet(t).len()) == e_sheet(t),
    ensures
        p_sheet(s, pos) == Some((t, pos + e_sheet(t).len())),
{
    let a1 = e_str(t.filename);
    let a2 = e_str(t.path);
    let a3 = e_str(t.absolute_path);
    let a4 = e_u32(t.tile_size.0);
    let a5 = e_u32(t.tile_size.1);
    let a6 = e_u32(t.sheet_size.0);
    let a7 = e_u32(t.sheet_size.1);
    assert(e_sheet(t) =~= a1 + (a2 + (a3 + (a4 + (a5 + (a6 + a7))))));
    lemma_subrange_split(s, pos, a1, a2 + (a3 + (a4 + (a5 + (a6 + a7)))));
    lemma_str_round_trip(s, pos, t.filename);
    let p1 = pos + a1.len();
    lemma_subrange_split(s, p1, a2, a3 + (a4 + (a5 + (a6 + a7))));
    lemma_str_round_trip(s, p1, t.path);
    let p2 = p1 + a2.len();
    lemma_subrange_split(s, p2, a3, a4 + (a5 + (a6 + a7)));
    lemma_str_round_trip(s, p2, t.absolute_path);
    let p3 = p2 + a3.len();
    lemma_subrange_split(s, p3, a4, a5 + (a6 + a7));
    lemma_u32_round_trip(s, p3, t.tile_size.0);
    let p4 = p3 + a4.len();
    lemma_subrange_split(s, p4, a5, a6 + a7);
    lemma_u32_round_trip(s, p4, t.tile_size.1);
    let p5 = p4 + a5.len();
    lemma_subrange_split(s, p5, a6, a7);
    lemma_u32_round_trip(s, p5, t.sheet_size.0);
    let p6 = p5 + a6.len();
    lemma_u32_round_trip(s, p6, t.sheet_size.1);
}

/// Parses a tile-sheet, exactly as [`p_sheet`] describes.
pub fn parse_sheet(s: &str, pos: usize) -> (r: Option<(crate::scene::TileSheet, usize)>)
    requires
        pos <= s@.len() <= usize::MAX,
    ensures
        match r {
            Some((v, q)) => p_sheet(s@, pos as int) == Some((v@, q as int)) && pos < q <= s@.len(),
            None => p_sheet(s@, pos as int) is None,
        },
{
    let (filename, q1) = match parse_str(s, pos) {
        Some(x) => x,
        None => {
            return None;
        },
    };
    let (path, q2) = match parse_str(s, q1) {
        Some(x) => x,
        None => {
            return None;
        },
    };
    let (absolute_path, q3) = match parse_str(s, q2) {
        Some(x) => x,
        None => {
            return None;
        },
    };
    let (t0, q4) = match parse_u32(s, q3) {
        Some(x) => x,
        None => {
            return None;
        },
    };
    let (t1, q5) = match parse_u32(s, q4) {
        Some(x) => x,
        None => {
            return None;
        },
    };
    let (s0, q6) = match parse_u32(s, q5) {
        Some(x) => x,
        None => {
            return None;
        },
    };
    let (s1, q7) = match parse_u32(s, q6) {
        Some(x) => x,
        None => {
            return None;
        },
    };
    Some(
        (
            crate::scene::TileSheet {
                filename,
                path,
                absolute_path,
                tile_size: (t0, t1),
                sheet_size: (s0, s1),
            },
            q7,
        ),
    )
}

/// Appends the encoding of a tile-sheet.
fn enc_sheet(out: &mut String, t: &crate::scene::TileSheet)
    ensures
        final(out)@ == old(out)@ + e_sheet(t@),
        sheet_v_bounded(t@),
{
    note_char_len(t.filename.as_str());
    note_char_len(t.path.as_str());
    note_char_len(t.absolute_path.as_str());
    enc_str(out, t.filename.as_str());
    enc_str(out, t.path.as_str());
    enc_str(out, t.absolute_path.as_str());
    enc_num(out, t.tile_size.0 as u64);
    enc_num(out, t.tile_size.1 as u64);
    enc_num(out, t.sheet_size.0 as u64);
    enc_num(out, t.sheet_size.1 as u64);
    proof {
        assert(final(out)@ =~= old(out)@ + e_sheet(t@));
    }
}

/// The mathematical contents of a scene.
pub ghost struct SceneV {
    pub name: Seq<char>,
    pub path: Seq<char>,
    pub tile_sheets: Seq<SheetV>,
    pub layers: Seq<LayerV>,
}

impl View for crate::scene::Scene {
    type V = SceneV;

    open spec fn view(&self) -> SceneV {
        SceneV {
            name: self.name@,
            path: self.path@,
            tile_sheets: self.tile_sheets@.map_values(|t: crate::scene::TileSheet| t@),
            layers: self.layers@.map_values(|l: crate::scene::Layer| l@),
        }
    }
}

/// The scene's strings and counts fit the machine.
pub open spec fn scene_v_bounded(v: SceneV) -> bool {
    &&& v.name.len() <= u64::MAX
    &&& v.path.len() <= u64::MAX
    &&& v.tile_sheets.len() <= u64::MAX
    &&& v.layers.len() <= u64::MAX
    &&& forall|i: int| 0 <= i < v.tile_sheets.len() ==> sheet_v_bounded(#[trigger] v.tile_sheets[i])
    &&& forall|i: int| 0 <= i < v.layers.len() ==> layer_v_bounded(#[trigger] v.layers[i])
}

/// The sheets of a scene, first to last.
pub open spec fn e_sheets(ts: Seq<SheetV>) -> Seq<char>
    decreases ts.len(),
{
    if ts.len() == 0 {
        Seq::empty()
    } else {
        e_sheet(ts[0]) + e_sheets(ts.drop_first())
    }
}

/// Parses `count` sheets onto `acc`.
pub open spec fn p_sheets(s: Seq<char>, pos: int, count: nat, acc: Seq<SheetV>) -> Option<
    (Seq<SheetV>, int),
>
    decreases count,
{
    if count == 0 {
        Some((acc, pos))
    } else {
        match p_sheet(s, pos) {
            Some((v, q)) => p_sheets(s, q, (count - 1) as nat, acc.push(v)),
            None => None,
        }
    }
}

/// ROUND TRIP for sheet lists.
proof fn lemma_sheets_round_trip(s: Seq<char>, pos: int, ts: Seq<SheetV>, acc: Seq<SheetV>)
    requires
        forall|i: int| 0 <= i < ts.len() ==> sheet_v_bounded(#[trigger] ts[i]),
        0 <= pos,
        pos + e_sheets(ts).len() <= s.len(),
        s.subrange(pos, pos + e_sheets(ts).len()) == e_sheets(ts),
    ensures
        p_sheets(s, pos, ts.len(), acc) == Some((acc + ts, pos + e_sheets(ts).len())),
    decreases ts.len(),
{
    if ts.len() == 0 {
        assert(acc + ts =~= acc);
    } else {
        let hd = e_sheet(ts[0]);
        let tl = e_sheets(ts.drop_first());
        lemma_subrange_split(s, pos, hd, tl);
        lemma_sheet_round_trip(s, pos, ts[0]);
        assert(forall|i: int| 0 <= i < ts.drop_first().len() ==> ts.drop_first()[i] == ts[i + 1]);
        lemma_sheets_round_trip(s, pos + hd.len(), ts.drop_first(), acc.push(ts[0]));
        assert(acc.push(ts[0]) + ts.drop_first() =~= acc + ts);
    }
}

/// Appending one sheet extends the sheet encoding at its end.
proof fn lemma_e_sheets_snoc(ts: Seq<SheetV>, x: SheetV)
    ensures
        e_sheets(ts.push(x)) == e_sheets(ts) + e_sheet(x),
    decreases ts.len(),
{
    if ts.len() == 0 {
        assert(ts.push(x)[0] == x);
        assert(ts.push(x).drop_first() =~= Seq::<SheetV>::empty());
        assert(e_sheets(Seq::<SheetV>::empty()) == Seq::<char>::empty());
        assert(e_sheets(ts.push(x)) == e_sheet(x) + e_sheets(Seq::<SheetV>::empty()));
        assert(e_sheets(ts.push(x)) =~= e_sheets(ts) + e_sheet(x));
    } else {
        assert(ts.push(x)[0] == ts[0]);
        assert(ts.push(x).drop_first() =~= ts.drop_first().push(x));
        assert(e_sheets(ts.push(x)) == e_sheet(ts[0]) + e_sheets(ts.drop_first().push(x)));
        lemma_e_sheets_snoc(ts.drop_first(), x);
        assert(e_sheets(ts.push(x)) =~= e_sheets(ts) + e_sheet(x));
    }
}

/// The layers of a scene, first to last.
pub open spec fn e_layers(ls: Seq<LayerV>) -> Seq<char>
    decreases ls.len(),
{
    if ls.len() == 0 {
        Seq::empty()
    } else {
        e_layer(ls[0]) + e_layers(ls.drop_first())
    }
}

/// Parses `count` layers onto `acc`.
pub open spec fn p_layers(s: Seq<char>, pos: int, count: nat, acc: Seq<LayerV>) -> Option<
    (Seq<LayerV>, int),
>
    decreases count,
{
    if count == 0 {
        Some((acc, pos))
    } else {
        match p_layer(s, pos) {
            Some((v, q)) => p_layers(s, q, (count - 1) as nat, acc.push(v)),
            None => None,
        }
    }
}

/// ROUND TRIP for layer lists.
proof fn lemma_layers_round_trip(s: Seq<char>, pos: int, ls: Seq<LayerV>, acc: Seq<LayerV>)
    requires
        forall|i: int| 0 <= i < ls.len() ==> layer_v_bounded(#[trigger] ls[i]),
        0 <= pos,
        pos + e_layers(ls).len() <= s.len(),
        s.subrange(pos, pos + e_layers(ls).len()) == e_layers(ls),
    ensures
        p_layers(s, pos, ls.len(), acc) == Some((acc + ls, pos + e_layers(ls).len())),
    decreases ls.len(),
{
    if ls.len() == 0 {
        assert(acc + ls =~= acc);
    } else {
        let hd = e_layer(ls[0]);
        let tl = e_layers(ls.drop_first());
        lemma_subrange_split(s, pos, hd, tl);
        lemma_layer_round_trip(s, pos, ls[0]);
        assert(forall|i: int| 0 <= i < ls.drop_first().len() ==> ls.drop_first()[i] == ls[i + 1]);
        lemma_layers_round_trip(s, pos + hd.len(), ls.drop_first(), acc.push(ls[0]));
        assert(acc.push(ls[0]) + ls.drop_first() =~= acc + ls);
    }
}

/// Appending one layer extends the layer encoding at its end.
proof fn lemma_e_layers_snoc(ls: Seq<LayerV>, x: LayerV)
    ensures
        e_layers(ls.push(x)) == e_layers(ls) + e_layer(x),
    decreases ls.len(),
{
    if ls.len() == 0 {
        assert(ls.push(x)[0] == x);
        assert(ls.push(x).drop_first() =~= Seq::<LayerV>::empty());
        assert(e_layers(Seq::<LayerV>::empty()) == Seq::<char>::empty());
        assert(e_layers(ls.push(x)) == e_layer(x) + e_layers(Seq::<LayerV>::empty()));
        assert(e_layers(ls.push(x)) =~= e_layers(ls) + e_layer(x));
    } else {
        assert(ls.push(x)[0] == ls[0]);
        assert(ls.push(x).drop_first() =~= ls.drop_first().push(x));
        assert(e_layers(ls.push(x)) == e_layer(ls[0]) + e_layers(ls.drop_first().push(x)));
        lemma_e_layers_snoc(ls.drop_first(), x);
        assert(e_layers(ls.push(x)) =~= e_layers(ls) + e_layer(x));
    }
}

/// A scene: its name, storage path, tile-sheets and layers, each list with
/// its count.
pub open spec fn e_scene(v: SceneV) -> Seq<char> {
    e_str(v.name) + e_str(v.path) + e_num(v.tile_sheets.len()) + e_sheets(v.tile_sheets) + e_num(
        v.layers.len(),
    ) + e_layers(v.layers)
}

/// Parses a scene.
pub open spec fn p_scene(s: Seq<char>, pos: int) -> Option<(SceneV, int)> {
    match p_str(s, pos) {
        Some((name, q1)) => match p_str(s, q1) {
            Some((path, q2)) => match p_num(s, q2) {
                Some((nsheets, q3)) => match p_sheets(s, q3, nsheets, Seq::empty()) {
                    Some((tile_sheets, q4)) => match p_num(s, q4) {
                        Some((nlayers, q5)) => match p_layers(s, q5, nlayers, Seq::empty()) {
                            Some((layers, q6)) => Some(
                                (SceneV { name, path, tile_sheets, layers }, q6),
                            ),
                            None => None,
                        },
                        None => None,
                    },
                    None => None,
                },
                None => None,
            },
            None => None,
        },
        None => None,
    }
}

/// The list halves of a scene encoding read back as the two lists.
proof fn lemma_scene_lists_round_trip(s: Seq<char>, pos: int, ts: Seq<SheetV>, ls: Seq<LayerV>)
    requires
        ts.len() <= u64::MAX,
        ls.len() <= u64::MAX,
        forall|i: int| 0 <= i < ts.len() ==> sheet_v_bounded(#[trigger] ts[i]),
        forall|i: int| 0 <= i < ls.len() ==> layer_v_bounded(#[trigger] ls[i]),
        0 <= pos,
        pos + e_num(ts.len()).len() + e_sheets(ts).len() + e_num(ls.len()).len() + e_layers(
            ls,
        ).len() <= s.len(),
        s.subrange(
            pos,
            pos + e_num(ts.len()).len() + e_sheets(ts).len() + e_num(ls.len()).len() + e_layers(
                ls,
            ).len(),
        ) == e_num(ts.len()) + (e_sheets(ts) + (e_num(ls.len()) + e_layers(ls))),
    ensures
        ({
            let p1 = pos + e_num(ts.len()).len();
            let p2 = p1 + e_sheets(ts).len();
            let p3 = p2 + e_num(ls.len()).len();
            let p4 = p3 + e_layers(ls).len();
            &&& p_num(s, pos) == Some((ts.len(), p1))
            &&& p_sheets(s, p1, ts.len(), Seq::<SheetV>::empty()) == Some((ts, p2))
            &&& p_num(s, p2) == Some((ls.len(), p3))
            &&& p_layers(s, p3, ls.len(), Seq::<LayerV>::empty()) == Some((ls, p4))
        }),
{
    let a3 = e_num(ts.len());
    let a4 = e_sheets(ts);
    let a5 = e_num(ls.len());
    let a6 = e_layers(ls);
    lemma_subrange_split(s, pos, a3, a4 + (a5 + a6));
    lemma_num_round_trip(s, pos, ts.len());
    let p1 = pos + a3.len();
    lemma_subrange_split(s, p1, a4, a5 + a6);
    lemma_sheets_round_trip(s, p1, ts, Seq::empty());
    assert(Seq::empty() + ts =~= ts);
    let p2 = p1 + a4.len();
    lemma_subrange_split(s, p2, a5, a6);
    lemma_num_round_trip(s, p2, ls.len());
    let p3 = p2 + a5.len();
    lemma_layers_round_trip(s, p3, ls, Seq::empty());
    assert(Seq::empty() + ls =~= ls);
}

/// LAW — scene round trip: parsing an encoded scene yields the scene back,
/// field for field, consuming exactly the encoding.
#[verifier::spinoff_prover]
#[verifier::rlimit(100)]
pub proof fn lemma_scene_round_trip(v: SceneV)
    requires
        scene_v_bounded(v),
    ensures
        p_scene(e_scene(v), 0) == Some((v, e_scene(v).len() as int)),
{
    let s = e_scene(v);
    let a1 = e_str(v.name);
    let a2 = e_str(v.path);
    let a3 = e_num(v.tile_sheets.len());
    let a4 = e_sheets(v.tile_sheets);
    let a5 = e_num(v.layers.len());
    let a6 = e_layers(v.layers);
    let rest = a3 + (a4 + (a5 + a6));
    assert(s.subrange(0, s.len() as int) =~= s);
    assert(s =~= a1 + (a2 + rest));
    lemma_subrange_split(s, 0, a1, a2 + rest);
    lemma_str_round_trip(s, 0, v.name);
    let p1 = a1.len() as int;
    lemma_subrange_split(s, p1, a2, rest);
    lemma_str_round_trip(s, p1, v.path);
    let p2 = p1 + a2.len();
    lemma_scene_lists_round_trip(s, p2, v.tile_sheets, v.layers);
}

/// Serializes a scene; [`parse_scene`] reads it back field for field.
pub fn encode_scene(scene: &crate::scene::Scene) -> (r: String)
    ensures
        r@ == e_scene(scene@),
        scene_v_bounded(scene@),
{
    let mut out = String::new();
    note_char_len(scene.name.as_str());
    note_char_len(scene.path.as_str());
    enc_str(&mut out, scene.name.as_str());
    enc_str(&mut out, scene.path.as_str());
    let ns = scene.tile_sheets.len();
    enc_num(&mut out, ns as u64);
    let ghost mid0 = out@;
    let ghost sheets_v = scene@.tile_sheets;
    for i in 0..ns
        invariant
            ns == scene.tile_sheets@.len(),
            sheets_v == scene@.tile_sheets,
            sheets_v.len() == ns,
            out@ == mid0 + e_sheets(sheets_v.take(i as int)),
            forall|j: int| 0 <= j < i ==> sheet_v_bounded(#[trigger] sheets_v[j]),
    {
        enc_sheet(&mut out, &scene.tile_sheets[i]);
        proof {
            lemma_e_sheets_snoc(sheets_v.take(i as int), sheets_v[i as int]);
            assert(sheets_v.take(i + 1) =~= sheets_v.take(i as int).push(sheets_v[i as int]));
            assert(out@ =~= mid0 + e_sheets(sheets_v.take(i + 1)));
        }
    }
    proof {
        assert(sheets_v.take(ns as int) =~= sheets_v);
    }
    let nl = scene.layers.len();
    enc_num(&mut out, nl as u64);
    let ghost mid1 = out@;
    let ghost layers_v = scene@.layers;
    for i in 0..nl
        invariant
            nl == scene.layers@.len(),
            layers_v == scene@.layers,
            layers_v.len() == nl,
            out@ == mid1 + e_layers(layers_v.take(i as int)),
            forall|j: int| 0 <= j < i ==> layer_v_bounded(#[trigger] layers_v[j]),
    {
        enc_layer(&mut out, &scene.layers[i]);
        proof {
            lemma_e_layers_snoc(layers_v.take(i as int), layers_v[i as int]);
            assert(layers_v.take(i + 1) =~= layers_v.take(i as int).push(layers_v[i as int]));
            assert(out@ =~= mid1 + e_layers(layers_v.take(i + 1)));
        }
    }
    proof {
        assert(layers_v.take(nl as int) =~= layers_v);
        assert(out@ =~= e_scene(scene@));
    }
    out
}

/// Parses a scene, exactly as [`p_scene`] describes.
pub fn parse_scene(s: &str, pos: usize) -> (r: Option<(crate::scene::Scene, usize)>)
    requires
        pos <= s@.len() <= usize::MAX,
    ensures
        match r {
            Some((v, q)) => p_scene(s@, pos as int) == Some((v@, q as int)) && pos < q <= s@.len(),
            None => p_scene(s@, pos as int) is None,
        },
{
    let (name, q1) = match parse_str(s, pos) {
        Some(x) => x,
        None => {
            return None;
        },
    };
    let (path, q2) = match parse_str(s, q1) {
        Some(x) => x,
        None => {
            return None;
        },
    };
    let (nsheets, q3) = match parse_num(s, q2) {
        Some(x) => x,
        None => {
            return None;
        },
    };
    let mut tile_sheets: Vec<crate::scene::TileSheet> = Vec::new();
    let mut cur = q3;
    let mut k: u64 = 0;
    proof {
        assert(tile_sheets@.map_values(|t: crate::scene::TileSheet| t@) =~= Seq::<
            SheetV,
        >::empty());
    }
    while k < nsheets
        invariant
            pos < cur <= s@.len() <= usize::MAX,
            k <= nsheets,
            p_str(s@, pos as int) == Some((name@, q1 as int)),
            p_str(s@, q1 as int) == Some((path@, q2 as int)),
            p_num(s@, q2 as int) == Some((nsheets as nat, q3 as int)),
            p_sheets(s@, q3 as int, nsheets as nat, Seq::empty()) == p_sheets(
                s@,
                cur as int,
                (nsheets - k) as nat,
                tile_sheets@.map_values(|t: crate::scene::TileSheet| t@),
            ),
        decreases nsheets - k,
    {
        let (v, q) = match parse_sheet(s, cur) {
            Some(x) => x,
            None => {
                return None;
            },
        };
        proof {
            assert(tile_sheets@.push(v).map_values(|t: crate::scene::TileSheet| t@)
                =~= tile_sheets@.map_values(|t: crate::scene::TileSheet| t@).push(v@));
        }
        tile_sheets.push(v);
        cur = q;
        k = k + 1;
    }
    let (nlayers, q5) = match parse_num(s, cur) {
        Some(x) => x,
        None => {
            return None;
        },
    };
    let mut layers: Vec<crate::scene::Layer> = Vec::new();
    let mut cur2 = q5;
    let mut k2: u64 = 0;
    proof {
        assert(layers@.map_values(|l: crate::scene::Layer| l@) =~= Seq::<LayerV>::empty());
    }
    while k2 < nlayers
        invariant
            pos < cur2 <= s@.len() <= usize::MAX,
            k2 <= nlayers,
            p_str(s@, pos as int) == Some((name@, q1 as int)),
            p_str(s@, q1 as int) == Some((path@, q2 as int)),
            p_num(s@, q2 as int) == Some((nsheets as nat, q3 as int)),
            p_sheets(s@, q3 as int, nsheets as nat, Seq::empty()) == Some(
                (tile_sheets@.map_values(|t: crate::scene::TileSheet| t@), cur as int),
            ),
            p_num(s@, cur as int) == Some((nlayers as nat, q5 as int)),
            p_layers(s@, q5 as int, nlayers as nat, Seq::empty()) == p_layers(
                s@,
                cur2 as int,
                (nlayers - k2) as nat,
                layers@.map_values(|l: crate::scene::Layer| l@),
            ),
        decreases nlayers - k2,
    {
        let (v, q) = match parse_layer(s, cur2) {
            Some(x) => x,
            None => {
                return None;
            },
        };
        proof {
            assert(layers@.push(v).map_values(|l: crate::scene::Layer| l@) =~= layers@.map_values(
                |l: crate::scene::Layer| l@,
            ).push(v@));
        }
        layers.push(v);
        cur2 = q;
        k2 = k2 + 1;
    }
    let scene = crate::scene::Scene { name, path, tile_sheets, layers };
    Some((scene, cur2))
}

/// The layer invariant, over the layer's mathematical contents: one tile
/// per cell.
pub open spec fn layer_v_wf(l: LayerV) -> bool {
    forall|i: int, j: int|
        0 <= i < j < l.tiles.len() ==> (#[trigger] l.tiles[i]).0 != (#[trigger] l.tiles[j]).0
}

/// The sheet invariant, over the sheet's mathematical contents.
pub open spec fn sheet_v_wf(t: SheetV) -> bool {
    t.tile_size.0 > 0 && t.tile_size.1 > 0
}

/// The scene invariant, over the scene's mathematical contents.
pub open spec fn scene_v_wf(v: SceneV) -> bool {
    &&& forall|i: int| 0 <= i < v.layers.len() ==> layer_v_wf(#[trigger] v.layers[i])
    &&& forall|i: int| 0 <= i < v.tile_sheets.len() ==> sheet_v_wf(#[trigger] v.tile_sheets[i])
    &&& forall|i: int, j: int|
        0 <= i < j < v.tile_sheets.len() ==> (#[trigger] v.tile_sheets[i]).path != (
        #[trigger] v.tile_sheets[j]).path
}

/// A scene satisfies its invariant exactly when its view does.
pub proof fn lemma_scene_wf_view(sc: crate::scene::Scene)
    ensures
        sc.wf() == scene_v_wf(sc@),
{
    let v = sc@;
    assert(forall|i: int|
        0 <= i < sc.layers@.len() ==> (#[trigger] v.layers[i]) == sc.layers@[i]@);
    assert(forall|i: int|
        0 <= i < sc.tile_sheets@.len() ==> (#[trigger] v.tile_sheets[i]) == sc.tile_sheets@[i]@);
    assert forall|i: int| 0 <= i < sc.layers@.len() implies (#[trigger] sc.layers@[i]).wf()
        == layer_v_wf(v.layers[i]) by {
        let es = sc.layers@[i].tiles.entries@;
        let ts = v.layers[i].tiles;
        assert(forall|k: int| 0 <= k < es.len() ==> (#[trigger] ts[k]).0 == es[k].0);
        if crate::cellmap::cells_distinct(es) {
            assert(layer_v_wf(v.layers[i]));
        }
        if layer_v_wf(v.layers[i]) {
            assert forall|p: int, q: int| 0 <= p < q < es.len() implies (#[trigger] es[p]).0 != (
            #[trigger] es[q]).0 by {
                assert(ts[p].0 == es[p].0 && ts[q].0 == es[q].0);
            }
        }
    }
    if sc.wf() {
        assert(scene_v_wf(v));
    }
    if scene_v_wf(v) {
        assert forall|i: int| 0 <= i < sc.layers@.len() implies (#[trigger] sc.layers@[i]).wf() by {
            assert(layer_v_wf(v.layers[i]));
        }
        assert forall|i: int|
            0 <= i < sc.tile_sheets@.len() implies (#[trigger] sc.tile_sheets@[i]).wf() by {
            assert(sheet_v_wf(v.tile_sheets[i]));
        }
        assert forall|i: int, j: int|
            0 <= i < j < sc.tile_sheets@.len() implies (#[trigger] sc.tile_sheets@[i]).path@ != (
        #[trigger] sc.tile_sheets@[j]).path@ by {
            assert(v.tile_sheets[i].path != v.tile_sheets[j].path);
        }
        assert(sc.wf());
    }
}

/// An asset kind tag: one character.
pub open spec fn e_kind(k: crate::assets::AssetType) -> Seq<char> {
    match k {
        crate::assets::AssetType::Script => seq!['s'],
        crate::assets::AssetType::Texture => seq!['t'],
        crate::assets::AssetType::Sfx => seq!['x'],
        crate::assets::AssetType::Music => seq!['m'],
        crate::assets::AssetType::Font => seq!['f'],
    }
}

/// Parses an asset kind tag.
pub open spec fn p_kind(s: Seq<char>, pos: int) -> Option<(crate::assets::AssetType, int)> {
    if 0 <= pos < s.len() {
        if s[pos] == 's' {
            Some((crate::assets::AssetType::Script, pos + 1))
        } else if s[pos] == 't' {
            Some((crate::assets::AssetType::Texture, pos + 1))
        } else if s[pos] == 'x' {
            Some((crate::assets::AssetType::Sfx, pos + 1))
        } else if s[pos] == 'm' {
            Some((crate::assets::AssetType::Music, pos + 1))
        } else if s[pos] == 'f' {
            Some((crate::assets::AssetType::Font, pos + 1))
        } else {
            None
        }
    } else {
        None
    }
}

/// A load strategy tag: one character.
pub open spec fn e_load(l: crate::assets::LoadType) -> Seq<char> {
    match l {
        crate::assets::LoadType::External => seq!['e'],
        crate::assets::LoadType::Emdedded => seq!['b'],
    }
}

/// Parses a load strategy tag.
pub open spec fn p_load(s: Seq<char>, pos: int) -> Option<(crate::assets::LoadType, int)> {
    if 0 <= pos < s.len() {
        if s[pos] == 'e' {
            Some((crate::assets::LoadType::External, pos + 1))
        } else if s[pos] == 'b' {
            Some((crate::assets::LoadType::Emdedded, pos + 1))
        } else {
            None
        }
    } else {
        None
    }
}

/// An optional load order: `n`, or `y` and the order.
pub open spec fn e_order(o: Option<usize>) -> Seq<char> {
    match o {
        None => seq!['n'],
        Some(x) => seq!['y'] + e_usize(x),
    }
}

/// Parses an optional load order.
pub open spec fn p_order(s: Seq<char>, pos: int) -> Option<(Option<usize>, int)> {
    if 0 <= pos < s.len() {
        if s[pos] == 'n' {
            Some((None, pos + 1))
        } else if s[pos] == 'y' {
            match p_usize(s, pos + 1) {
                Some((x, q)) => Some((Some(x), q)),
                None => None,
            }
        } else {
            None
        }
    } else {
        None
    }
}

/// The mathematical contents of an asset.
pub ghost struct AssetV {
    pub name: Seq<char>,
    pub path: Seq<char>,
    pub absolute_path: Seq<char>,
    pub type_of: crate::assets::AssetType,
    pub load_type: crate::assets::LoadType,
    pub load_order: Option<usize>,
}

impl View for crate::assets::Asset {
    type V = AssetV;

    open spec fn view(&self) -> AssetV {
        AssetV {
            name: self.name@,
            path: self.path@,
            absolute_path: self.absolute_path@,
            type_of: self.type_of,
            load_type: self.load_type,
            load_order: self.load_order,
        }
    }
}

/// The asset's strings fit the machine.
pub open spec fn asset_v_bounded(a: AssetV) -> bool {
    a.name.len() <= u64::MAX && a.path.len() <= u64::MAX && a.absolute_path.len() <= u64::MAX
}

/// An asset: its names, kind, strategy, and load order.
pub open spec fn e_asset(a: AssetV) -> Seq<char> {
    e_str(a.name) + e_str(a.path) + e_str(a.absolute_path) + e_kind(a.type_of) + e_load(
        a.load_type,
    ) + e_order(a.load_order)
}

/// Parses an asset.
pub open spec fn p_asset(s: Seq<char>, pos: int) -> Option<(AssetV, int)> {
    match p_str(s, pos) {
        Some((name, q1)) => match p_str(s, q1) {
            Some((path, q2)) => match p_str(s, q2) {
                Some((absolute_path, q3)) => match p_kind(s, q3) {
                    Some((type_of, q4)) => match p_load(s, q4) {
                        Some((load_type, q5)) => match p_order(s, q5) {
                            Some((load_order, q6)) => Some(
                                (
                                    AssetV {
                                        name,
                                        path,
                                        absolute_path,
                                        type_of,
                                        load_type,
                                        load_order,
                                    },
                                    q6,
                                ),
                            ),
                            None => None,
                        },
                        None => None,
                    },
                    None => None,
                },
                None => None,
            },
            None => None,
        },
        None => None,
    }
}

/// ROUND TRIP for assets.
#[verifier::spinoff_prover]
#[verifier::rlimit(100)]
proof fn lemma_asset_round_trip(s: Seq<char>, pos: int, a: AssetV)
    requires
        asset_v_bounded(a),
        0 <= pos,
        pos + e_asset(a).len() <= s.len(),
        s.subrange(pos, pos + e_asset(a).len()) == e_asset(a),
    ensures
        p_asset(s, pos) == Some((a, pos + e_asset(a).len())),
{
    let a1 = e_str(a.name);
    let a2 = e_str(a.path);
    let a3 = e_str(a.absolute_path);
    let a4 = e_kind(a.type_of);
    let a5 = e_load(a.load_type);
    let a6 = e_order(a.load_order);
    assert(e_asset(a) =~= a1 + (a2 + (a3 + (a4 + (a5 + a6)))));
    lemma_subrange_split(s, pos, a1, a2 + (a3 + (a4 + (a5 + a6))));
    lemma_str_round_trip(s, pos, a.name);
    let p1 = pos + a1.len();
    lemma_subrange_split(s, p1, a2, a3 + (a4 + (a5 + a6)));
    lemma_str_round_trip(s, p1, a.path);
    let p2 = p1 + a2.len();
    lemma_subrange_split(s, p2, a3, a4 + (a5 + a6));
    lemma_str_round_trip(s, p2, a.absolute_path);
    let p3 = p2 + a3.len();
    lemma_subrange_split(s, p3, a4, a5 + a6);
    assert(s[p3] == a4[0]);
    let p4 = p3 + a4.len();
    lemma_subrange_split(s, p4, a5, a6);
    assert(s[p4] == a5[0]);
    let p5 = p4 + a5.len();
    assert(s[p5] == a6[0]);
    if a.load_order is Some {
        let x = a.load_order->Some_0;
        assert(e_order(a.load_order) =~= seq!['y'] + e_usize(x));
        lemma_subrange_split(s, p5, seq!['y'], e_usize(x));
        lemma_usize_round_trip(s, p5 + 1, x);
    }
}

/// Parses an asset, exactly as [`p_asset`] describes.
pub fn parse_asset(s: &str, pos: usize) -> (r: Option<(crate::assets::Asset, usize)>)
    requires
        pos <= s@.len() <= usize::MAX,
    ensures
        match r {
            Some((v, q)) => p_asset(s@, pos as int) == Some((v@, q as int)) && pos < q <= s@.len(),
            None => p_asset(s@, pos as int) is None,
        },
{
    let (name, q1) = match parse_str(s, pos) {
        Some(x) => x,
        None => {
            return None;
        },
    };
    let (path, q2) = match parse_str(s, q1) {
        Some(x) => x,
        None => {
            return None;
        },
    };
    let (absolute_path, q3) = match parse_str(s, q2) {
        Some(x) => x,
        None => {
            return None;
        },
    };
    let n = s.unicode_len();
    if q3 >= n {
        return None;
    }
    let type_of = match s.get_char(q3) {
        's' => crate::assets::AssetType::Script,
        't' => crate::assets::AssetType::Texture,
        'x' => crate::assets::AssetType::Sfx,
        'm' => crate::assets::AssetType::Music,
        'f' => crate::assets::AssetType::Font,
        _ => {
            return None;
        },
    };
    let q4 = q3 + 1;
    if q4 >= n {
        return None;
    }
    let load_type = match s.get_char(q4) {
        'e' => crate::assets::LoadType::External,
        'b' => crate::assets::LoadType::Emdedded,
        _ => {
            return None;
        },
    };
    let q5 = q4 + 1;
    if q5 >= n {
        return None;
    }
    let (load_order, q6) = match s.get_char(q5) {
        'n' => (None, q5 + 1),
        'y' => {
            match parse_usize(s, q5 + 1) {
                Some((x, q)) => (Some(x), q),
                None => {
                    return None;
                },
            }
        },
        _ => {
            return None;
        },
    };
    Some(
        (
            crate::assets::Asset { name, path, absolute_path, type_of, load_type, load_order },
            q6,
        ),
    )
}

/// Appends an asset kind tag.
fn enc_kind(out: &mut String, k: crate::assets::AssetType)
    ensures
        final(out)@ == old(out)@ + e_kind(k),
{
    match k {
        crate::assets::AssetType::Script => {
            out.append("s");
            proof {
                reveal_strlit("s");
                assert(final(out)@ =~= old(out)@ + e_kind(k));
            }
        },
        crate::assets::AssetType::Texture => {
            out.append("t");
            proof {
                reveal_strlit("t");
                assert(final(out)@ =~= old(out)@ + e_kind(k));
            }
        },
        crate::assets::AssetType::Sfx => {
            out.append("x");
            proof {
                reveal_strlit("x");
                assert(final(out)@ =~= old(out)@ + e_kind(k));
            }
        },
        crate::assets::AssetType::Music => {
            out.append("m");
            proof {
                reveal_strlit("m");
                assert(final(out)@ =~= old(out)@ + e_kind(k));
            }
        },
        crate::assets::AssetType::Font => {
            out.append("f");
            proof {
                reveal_strlit("f");
                assert(final(out)@ =~= old(out)@ + e_kind(k));
            }
        },
    }
}

/// Appends a load strategy tag.
fn enc_load(out: &mut String, l: crate::assets::LoadType)
    ensures
        final(out)@ == old(out)@ + e_load(l),
{
    match l {
        crate::assets::LoadType::External => {
            out.append("e");
            proof {
                reveal_strlit("e");
                assert(final(out)@ =~= old(out)@ + e_load(l));
            }
        },
        crate::assets::LoadType::Emdedded => {
            out.append("b");
            proof {
                reveal_strlit("b");
                assert(final(out)@ =~= old(out)@ + e_load(l));
            }
        },
    }
}

/// Appends an optional load order.
fn enc_order(out: &mut String, o: Option<usize>)
    ensures
        final(out)@ == old(out)@ + e_order(o),
{
    match o {
        None => {
            out.append("n");
            proof {
                reveal_strlit("n");
                assert(final(out)@ =~= old(out)@ + e_order(o));
            }
        },
        Some(x) => {
            out.append("y");
            proof {
                reveal_strlit("y");
            }
            enc_num(out, x as u64);
            proof {
                assert(final(out)@ =~= old(out)@ + e_order(o));
            }
        },
    }
}

/// Appends the encoding of an asset.
fn enc_asset(out: &mut String, a: &crate::assets::Asset)
    ensures
        final(out)@ == old(out)@ + e_asset(a@),
        asset_v_bounded(a@),
{
    note_char_len(a.name.as_str());
    note_char_len(a.path.as_str());
    note_char_len(a.absolute_path.as_str());
    enc_str(out, a.name.as_str());
    enc_str(out, a.path.as_str());
    enc_str(out, a.absolute_path.as_str());
    enc_kind(out, a.type_of);
    enc_load(out, a.load_type);
    enc_order(out, a.load_order);
    proof {
        assert(final(out)@ =~= old(out)@ + e_asset(a@));
    }
}

/// The mathematical contents of a project configuration.
pub ghost struct ConfigV {
    pub assets: Seq<AssetV>,
    pub window_size: (u32, u32),
}

impl View for crate::assets::Config {
    type V = ConfigV;

    open spec fn view(&self) -> ConfigV {
        ConfigV {
            assets: self.assets@.map_values(|a: crate::assets::Asset| a@),
            window_size: self.window_size,
        }
    }
}

/// The configuration's strings and counts fit the machine.
pub open spec fn config_v_bounded(v: ConfigV) -> bool {
    &&& v.assets.len() <= u64::MAX
    &&& forall|i: int| 0 <= i < v.assets.len() ==> asset_v_bounded(#[trigger] v.assets[i])
}

/// The assets of a configuration, first to last.
pub open spec fn e_assets(s: Seq<AssetV>) -> Seq<char>
    decreases s.len(),
{
    if s.len() == 0 {
        Seq::empty()
    } else {
        e_asset(s[0]) + e_assets(s.drop_first())
    }
}

/// Parses `count` assets onto `acc`.
pub open spec fn p_assets(s: Seq<char>, pos: int, count: nat, acc: Seq<AssetV>) -> Option<
    (Seq<AssetV>, int),
>
    decreases count,
{
    if count == 0 {
        Some((acc, pos))
    } else {
        match p_asset(s, pos) {
            Some((v, q)) => p_assets(s, q, (count - 1) as nat, acc.push(v)),
            None => None,
        }
    }
}

/// ROUND TRIP for asset lists.
proof fn lemma_assets_round_trip(s: Seq<char>, pos: int, vs: Seq<AssetV>, acc: Seq<AssetV>)
    requires
        forall|i: int| 0 <= i < vs.len() ==> asset_v_bounded(#[trigger] vs[i]),
        0 <= pos,
        pos + e_assets(vs).len() <= s.len(),
        s.subrange(pos, pos + e_assets(vs).len()) == e_assets(vs),
    ensures
        p_assets(s, pos, vs.len(), acc) == Some((acc + vs, pos + e_assets(vs).len())),
    decreases vs.len(),
{
    if vs.len() == 0 {
        assert(acc + vs =~= acc);
    } else {
        let hd = e_asset(vs[0]);
        let tl = e_assets(vs.drop_first());
        lemma_subrange_split(s, pos, hd, tl);
        lemma_asset_round_trip(s, pos, vs[0]);
        assert(forall|i: int| 0 <= i < vs.drop_first().len() ==> vs.drop_first()[i] == vs[i + 1]);
        lemma_assets_round_trip(s, pos + hd.len(), vs.drop_first(), acc.push(vs[0]));
        assert(acc.push(vs[0]) + vs.drop_first() =~= acc + vs);
    }
}

/// Appending one asset extends the asset encoding at its end.
proof fn lemma_e_assets_snoc(vs: Seq<AssetV>, x: AssetV)
    ensures
        e_assets(vs.push(x)) == e_assets(vs) + e_asset(x),
    decreases vs.len(),
{
    if vs.len() == 0 {
        assert(vs.push(x)[0] == x);
        assert(vs.push(x).drop_first() =~= Seq::<AssetV>::empty());
        assert(e_assets(Seq::<AssetV>::empty()) == Seq::<char>::empty());
        assert(e_assets(vs.push(x)) == e_asset(x) + e_assets(Seq::<AssetV>::empty()));
        assert(e_assets(vs.push(x)) =~= e_assets(vs) + e_asset(x));
    } else {
        assert(vs.push(x)[0] == vs[0]);
        assert(vs.push(x).drop_first() =~= vs.drop_first().push(x));
        assert(e_assets(vs.push(x)) == e_asset(vs[0]) + e_assets(vs.drop_first().push(x)));
        lemma_e_assets_snoc(vs.drop_first(), x);
        assert(e_assets(vs.push(x)) =~= e_assets(vs) + e_asset(x));
    }
}

/// The per-asset shape, over the asset's mathematical contents.
pub open spec fn asset_v_wf(a: AssetV) -> bool {
    &&& a.type_of is Script ==> a.load_type is Emdedded
    &&& a.type_of is Font ==> a.load_type is Emdedded
    &&& (a.type_of is Script <==> a.load_order is Some)
}

/// The registry invariant, over the registry's mathematical contents.
pub open spec fn registry_v_wf(s: Seq<AssetV>) -> bool {
    &&& forall|i: int, j: int|
        0 <= i < j < s.len() ==> !((#[trigger] s[j]).path == (#[trigger] s[i]).path
            && s[j].load_type == s[i].load_type)
    &&& forall|i: int| 0 <= i < s.len() ==> asset_v_wf(#[trigger] s[i])
    &&& forall|i: int, j: int|
        0 <= i < j < s.len() && (#[trigger] s[i]).type_of is Script && (
        #[trigger] s[j]).type_of is Script ==> s[i].load_order != s[j].load_order
}

/// A registry satisfies its invariant exactly when its view does.
pub proof fn lemma_config_wf_view(c: crate::assets::Config)
    ensures
        crate::assets::registry_wf(c.assets@) == registry_v_wf(c@.assets),
{
    let s = c.assets@;
    let v = c@.assets;
    assert(forall|i: int| 0 <= i < s.len() ==> (#[trigger] v[i]) == s[i]@);
    if crate::assets::registry_wf(s) {
        assert(registry_v_wf(v)) by {
            assert forall|i: int, j: int| 0 <= i < j < v.len() implies !((#[trigger] v[j]).path == (
            #[trigger] v[i]).path && v[j].load_type == v[i].load_type) by {
                assert(!crate::assets::asset_key_matches(s[j], s[i].path@, s[i].load_type));
            }
            assert(forall|i: int| 0 <= i < s.len() ==> crate::assets::asset_wf(#[trigger] s[i]));
        }
    }
    if registry_v_wf(v) {
        assert(crate::assets::registry_wf(s)) by {
            assert forall|i: int, j: int|
                0 <= i < j < s.len() implies !crate::assets::asset_key_matches(
                #[trigger] s[j],
                (#[trigger] s[i]).path@,
                s[i].load_type,
            ) by {
                assert(!(v[j].path == v[i].path && v[j].load_type == v[i].load_type));
            }
            assert forall|i: int| 0 <= i < s.len() implies crate::assets::asset_wf(
                #[trigger] s[i],
            ) by {
                assert(asset_v_wf(v[i]));
            }
            assert forall|i: int, j: int|
                0 <= i < j < s.len() && (#[trigger] s[i]).type_of is Script && (
            #[trigger] s[j]).type_of is Script implies s[i].load_order != s[j].load_order by {
                assert(v[i].type_of is Script && v[j].type_of is Script);
            }
        }
    }
}

/// A configuration: the window size, then the asset count and the assets.
pub open spec fn e_config(v: ConfigV) -> Seq<char> {
    e_u32(v.window_size.0) + e_u32(v.window_size.1) + e_num(v.assets.len()) + e_assets(v.assets)
}

/// Parses a configuration.
pub open spec fn p_config(s: Seq<char>, pos: int) -> Option<(ConfigV, int)> {
    match p_u32(s, pos) {
        Some((w, q1)) => match p_u32(s, q1) {
            Some((h, q2)) => match p_num(s, q2) {
                Some((count, q3)) => match p_assets(s, q3, count, Seq::empty()) {
                    Some((assets, q4)) => Some((ConfigV { assets, window_size: (w, h) }, q4)),
                    None => None,
                },
                None => None,
            },
            None => None,
        },
        None => None,
    }
}

/// LAW — configuration round trip: parsing an encoded configuration yields
/// it back, field for field, consuming exactly the encoding.
#[verifier::spinoff_prover]
#[verifier::rlimit(100)]
pub proof fn lemma_config_round_trip(v: ConfigV)
    requires
        config_v_bounded(v),
    ensures
        p_config(e_config(v), 0) == Some((v, e_config(v).len() as int)),
{
    let s = e_config(v);
    let a1 = e_u32(v.window_size.0);
    let a2 = e_u32(v.window_size.1);
    let a3 = e_num(v.assets.len());
    let a4 = e_assets(v.assets);
    assert(s.subrange(0, s.len() as int) =~= s);
    assert(s =~= a1 + (a2 + (a3 + a4)));
    lemma_subrange_split(s, 0, a1, a2 + (a3 + a4));
    lemma_u32_round_trip(s, 0, v.window_size.0);
    let p1 = a1.len() as int;
    lemma_subrange_split(s, p1, a2, a3 + a4);
    lemma_u32_round_trip(s, p1, v.window_size.1);
    let p2 = p1 + a2.len();
    lemma_subrange_split(s, p2, a3, a4);
    lemma_num_round_trip(s, p2, v.assets.len());
    let p3 = p2 + a3.len();
    lemma_assets_round_trip(s, p3, v.assets, Seq::empty());
    assert(Seq::empty() + v.assets =~= v.assets);
}

/// Serializes a configuration; [`parse_config`] reads it back field for
/// field.
pub fn encode_config(config: &crate::assets::Config) -> (r: String)
    ensures
        r@ == e_config(config@),
        config_v_bounded(config@),
{
    let mut out = String::new();
    enc_num(&mut out, config.window_size.0 as u64);
    enc_num(&mut out, config.window_size.1 as u64);
    let n = config.assets.len();
    enc_num(&mut out, n as u64);
    let ghost mid0 = out@;
    let ghost assets_v = config@.assets;
    for i in 0..n
        invariant
            n == config.assets@.len(),
            assets_v == config@.assets,
            assets_v.len() == n,
            out@ == mid0 + e_assets(assets_v.take(i as int)),
            forall|j: int| 0 <= j < i ==> asset_v_bounded(#[trigger] assets_v[j]),
    {
        enc_asset(&mut out, &config.assets[i]);
        proof {
            lemma_e_assets_snoc(assets_v.take(i as int), assets_v[i as int]);
            assert(assets_v.take(i + 1) =~= assets_v.take(i as int).push(assets_v[i as int]));
            assert(out@ =~= mid0 + e_assets(assets_v.take(i + 1)));
        }
    }
    proof {
        assert(assets_v.take(n as int) =~= assets_v);
        assert(out@ =~= e_config(config@));
    }
    out
}

/// Parses a configuration, exactly as [`p_config`] describes.
pub fn parse_config(s: &str, pos: usize) -> (r: Option<(crate::assets::Config, usize)>)
    requires
        pos <= s@.len() <= usize::MAX,
    ensures
        match r {
            Some((v, q)) => p_config(s@, pos as int) == Some((v@, q as int)) && pos < q
                <= s@.len(),
            None => p_config(s@, pos as int) is None,
        },
{
    let (w, q1) = match parse_u32(s, pos) {
        Some(x) => x,
        None => {
            return None;
        },
    };
    let (h, q2) = match parse_u32(s, q1) {
        Some(x) => x,
        None => {
            return None;
        },
    };
    let (count, q3) = match parse_num(s, q2) {
        Some(x) => x,
        None => {
            return None;
        },
    };
    let mut assets: Vec<crate::assets::Asset> = Vec::new();
    let mut cur = q3;
    let mut k: u64 = 0;
    proof {
        assert(assets@.map_values(|a: crate::assets::Asset| a@) =~= Seq::<AssetV>::empty());
    }
    while k < count
        invariant
            pos < cur <= s@.len() <= usize::MAX,
            k <= count,
            p_u32(s@, pos as int) == Some((w, q1 as int)),
            p_u32(s@, q1 as int) == Some((h, q2 as int)),
            p_num(s@, q2 as int) == Some((count as nat, q3 as int)),
            p_assets(s@, q3 as int, count as nat, Seq::empty()) == p_assets(
                s@,
                cur as int,
                (count - k) as nat,
                assets@.map_values(|a: crate::assets::Asset| a@),
            ),
        decreases count - k,
    {
        let (v, q) = match parse_asset(s, cur) {
            Some(x) => x,
            None => {
                return None;
            },
        };
        proof {
            assert(assets@.push(v).map_values(|a: crate::assets::Asset| a@) =~= assets@.map_values(
                |a: crate::assets::Asset| a@,
            ).push(v@));
        }
        assets.push(v);
        cur = q;
        k = k + 1;
    }
    Some((crate::assets::Config { assets, window_size: (w, h) }, cur))
}

} // verus!
