//! The canonical textual form of a 128-bit identifier: thirty-two
//! hexadecimal digits in five hyphen-separated groups of 8, 4, 4, 4
//! and 12 digits, most significant digit first.

use vstd::prelude::*;

verus! {

/// The lowercase hexadecimal digit for a value below sixteen.
pub open spec fn hex_char(v: int) -> char {
    if v == 0 {
        '0'
    } else if v == 1 {
        '1'
    } else if v == 2 {
        '2'
    } else if v == 3 {
        '3'
    } else if v == 4 {
        '4'
    } else if v == 5 {
        '5'
    } else if v == 6 {
        '6'
    } else if v == 7 {
        '7'
    } else if v == 8 {
        '8'
    } else if v == 9 {
        '9'
    } else if v == 10 {
        'a'
    } else if v == 11 {
        'b'
    } else if v == 12 {
        'c'
    } else if v == 13 {
        'd'
    } else if v == 14 {
        'e'
    } else {
        'f'
    }
}

/// The value of a hexadecimal digit, upper or lower case; -1 otherwise.
pub open spec fn hex_val(c: char) -> int {
    if c == '0' {
        0
    } else if c == '1' {
        1
    } else if c == '2' {
        2
    } else if c == '3' {
        3
    } else if c == '4' {
        4
    } else if c == '5' {
        5
    } else if c == '6' {
        6
    } else if c == '7' {
        7
    } else if c == '8' {
        8
    } else if c == '9' {
        9
    } else if c == 'a' || c == 'A' {
        10
    } else if c == 'b' || c == 'B' {
        11
    } else if c == 'c' || c == 'C' {
        12
    } else if c == 'd' || c == 'D' {
        13
    } else if c == 'e' || c == 'E' {
        14
    } else if c == 'f' || c == 'F' {
        15
    } else {
        -1
    }
}

pub open spec fn is_hex_digit(c: char) -> bool {
    hex_val(c) >= 0
}

/// The positions of the four hyphens in the canonical form.
pub open spec fn is_hyphen_pos(i: int) -> bool {
    i == 8 || i == 13 || i == 18 || i == 23
}

/// The character position of the j-th hexadecimal digit (0 <= j < 32).
pub open spec fn digit_pos(j: int) -> int {
    if j < 8 {
        j
    } else if j < 12 {
        j + 1
    } else if j < 16 {
        j + 2
    } else if j < 20 {
        j + 3
    } else {
        j + 4
    }
}

/// The digit number of a non-hyphen character position (0 <= i < 36).
pub open spec fn digit_index(i: int) -> int {
    if i < 8 {
        i
    } else if i < 13 {
        i - 1
    } else if i < 18 {
        i - 2
    } else if i < 23 {
        i - 3
    } else {
        i - 4
    }
}

/// The j-th hexadecimal digit of a 128-bit value, most significant first.
pub open spec fn nibble(u: u128, j: int) -> u128 {
    (u >> (((31 - j) * 4) as u128)) & 0xf
}

/// The canonical textual form of an identifier.
pub open spec fn id_chars(u: u128) -> Seq<char> {
    Seq::new(
        36,
        |i: int|
            if is_hyphen_pos(i) {
                '-'
            } else {
                hex_char(nibble(u, digit_index(i)) as int)
            },
    )
}

/// Whether a character sequence has the canonical identifier shape:
/// thirty-six characters, hyphens exactly at their four fixed
/// positions, hexadecimal digits of either case everywhere else.
pub open spec fn is_canonical_id(s: Seq<char>) -> bool {
    &&& s.len() == 36
    &&& forall|i: int| 0 <= i < 36 && is_hyphen_pos(i) ==> s[i] == '-'
    &&& forall|i: int| 0 <= i < 36 && !is_hyphen_pos(i) ==> is_hex_digit(#[trigger] s[i])
}

/// The thirty-two digit characters of a canonical identifier, in order.
pub open spec fn digits_of(s: Seq<char>) -> Seq<char> {
    Seq::new(32, |j: int| s[digit_pos(j)])
}

/// The value of a sequence of hexadecimal digits, most significant first.
pub open spec fn hex_seq_val(s: Seq<char>) -> int
    decreases s.len(),
{
    if s.len() == 0 {
        0
    } else {
        hex_seq_val(s.drop_last()) * 16 + hex_val(s.last())
    }
}

/// Sixteen raised to a power.
pub open spec fn pow16(n: nat) -> int
    decreases n,
{
    if n == 0 {
        1
    } else {
        16 * pow16((n - 1) as nat)
    }
}

/// What parsing an identifier string yields: the assembled value where
/// the string is canonical, nothing otherwise.
pub open spec fn spec_parse_id(s: Seq<char>) -> Option<u128> {
    if is_canonical_id(s) {
        Some(hex_seq_val(digits_of(s)) as u128)
    } else {
        None
    }
}

proof fn lemma_pow16_32()
    ensures
        pow16(32) == 0x100000000000000000000000000000000,
{
    reveal_with_fuel(pow16, 33);
}

proof fn lemma_pow16_pos(n: nat)
    ensures
        pow16(n) > 0,
    decreases n,
{
    if n > 0 {
        lemma_pow16_pos((n - 1) as nat);
    }
}

proof fn lemma_pow16_mono(a: nat, b: nat)
    requires
        a <= b,
    ensures
        0 < pow16(a) <= pow16(b),
    decreases b,
{
    if a < b {
        lemma_pow16_mono(a, (b - 1) as nat);
    } else {
        lemma_pow16_pos(a);
    }
}

fn digit_pos_exec(j: usize) -> (i: usize)
    requires
        j < 32,
    ensures
        i == digit_pos(j as int),
        i < 36,
        !is_hyphen_pos(i as int),
{
    if j < 8 {
        j
    } else if j < 12 {
        j + 1
    } else if j < 16 {
        j + 2
    } else if j < 20 {
        j + 3
    } else {
        j + 4
    }
}

fn digit_index_exec(i: usize) -> (d: usize)
    requires
        i < 36,
        !is_hyphen_pos(i as int),
    ensures
        d == digit_index(i as int),
        d < 32,
        digit_pos(d as int) == i,
{
    if i < 8 {
        i
    } else if i < 13 {
        i - 1
    } else if i < 18 {
        i - 2
    } else if i < 23 {
        i - 3
    } else {
        i - 4
    }
}

fn hex_val_exec(c: char) -> (r: Option<u8>)
    ensures
        match r {
            Some(v) => is_hex_digit(c) && v == hex_val(c),
            None => !is_hex_digit(c),
        },
{
    match c {
        '0' => Some(0),
        '1' => Some(1),
        '2' => Some(2),
        '3' => Some(3),
        '4' => Some(4),
        '5' => Some(5),
        '6' => Some(6),
        '7' => Some(7),
        '8' => Some(8),
        '9' => Some(9),
        'a' | 'A' => Some(10),
        'b' | 'B' => Some(11),
        'c' | 'C' => Some(12),
        'd' | 'D' => Some(13),
        'e' | 'E' => Some(14),
        'f' | 'F' => Some(15),
        _ => None,
    }
}

fn hex_lit(v: u128) -> (r: &'static str)
    requires
        v < 16,
    ensures
        r@ == seq![hex_char(v as int)],
{
    let r: &'static str = if v == 0 {
        "0"
    } else if v == 1 {
        "1"
    } else if v == 2 {
        "2"
    } else if v == 3 {
        "3"
    } else if v == 4 {
        "4"
    } else if v == 5 {
        "5"
    } else if v == 6 {
        "6"
    } else if v == 7 {
        "7"
    } else if v == 8 {
        "8"
    } else if v == 9 {
        "9"
    } else if v == 10 {
        "a"
    } else if v == 11 {
        "b"
    } else if v == 12 {
        "c"
    } else if v == 13 {
        "d"
    } else if v == 14 {
        "e"
    } else {
        "f"
    };
    proof {
        reveal_strlit("0");
        reveal_strlit("1");
        reveal_strlit("2");
        reveal_strlit("3");
        reveal_strlit("4");
        reveal_strlit("5");
        reveal_strlit("6");
        reveal_strlit("7");
        reveal_strlit("8");
        reveal_strlit("9");
        reveal_strlit("a");
        reveal_strlit("b");
        reveal_strlit("c");
        reveal_strlit("d");
        reveal_strlit("e");
        reveal_strlit("f");
        assert(r@ =~= seq![hex_char(v as int)]);
    }
    r
}

/// Render an identifier in its canonical textual form.
pub fn format_id(u: u128) -> (s: String)
    ensures
        s@ == id_chars(u),
{
    let mut s = String::new();
    let mut i: usize = 0;
    while i < 36
        invariant
            0 <= i <= 36,
            s@ == id_chars(u).take(i as int),
        decreases 36 - i,
    {
        if i == 8 || i == 13 || i == 18 || i == 23 {
            s.append("-");
            proof {
                reveal_strlit("-");
                assert(s@ =~= id_chars(u).take(i as int + 1));
            }
        } else {
            let d = digit_index_exec(i);
            let sh: u128 = ((31 - d) as u128) * 4;
            let v: u128 = (u >> sh) & 0xf;
            proof {
                assert((u >> sh) & 0xf < 16) by (bit_vector);
                assert(v == nibble(u, d as int));
            }
            let cstr = hex_lit(v);
            s.append(cstr);
            proof {
                assert(s@ =~= id_chars(u).take(i as int + 1));
            }
        }
        i += 1;
    }
    proof {
        assert(id_chars(u).take(36) =~= id_chars(u));
    }
    s
}

/// Parse the canonical textual form of an identifier.
pub fn parse_id(s: &str) -> (r: Option<u128>)
    ensures
        r == spec_parse_id(s@),
{
    if s.unicode_len() != 36 {
        return None;
    }
    if s.get_char(8) != '-' || s.get_char(13) != '-' || s.get_char(18) != '-' || s.get_char(23)
        != '-' {
        return None;
    }
    let mut acc: u128 = 0;
    let mut j: usize = 0;
    while j < 32
        invariant
            s@.len() == 36,
            0 <= j <= 32,
            forall|t: int| 0 <= t < j ==> is_hex_digit(#[trigger] s@[digit_pos(t)]),
            acc == hex_seq_val(digits_of(s@).take(j as int)),
            acc < pow16(j as nat),
        decreases 32 - j,
    {
        let i = digit_pos_exec(j);
        let c = s.get_char(i);
        let v = match hex_val_exec(c) {
            Some(v) => v,
            None => {
                return None;
            },
        };
        proof {
            lemma_pow16_mono((j + 1) as nat, 32);
            lemma_pow16_32();
            let digs = digits_of(s@);
            assert(digs.take(j as int + 1) =~= digs.take(j as int).push(s@[digit_pos(j as int)]));
            assert(digs.take(j as int + 1).drop_last() =~= digs.take(j as int));
        }
        acc = acc * 16 + (v as u128);
        j += 1;
    }
    proof {
        assert forall|i: int| 0 <= i < 36 && !is_hyphen_pos(i) implies is_hex_digit(
            #[trigger] s@[i],
        ) by {
            assert(digit_pos(digit_index(i)) == i && 0 <= digit_index(i) < 32);
        }
        assert(is_canonical_id(s@));
        assert(digits_of(s@).take(32) =~= digits_of(s@));
        lemma_pow16_32();
    }
    Some(acc)
}

/// The thirty-two digit characters of a rendered identifier.
spec fn nib_chars(u: u128) -> Seq<char> {
    Seq::new(32, |j: int| hex_char(nibble(u, j) as int))
}

proof fn lemma_hex_round(v: int)
    requires
        0 <= v < 16,
    ensures
        hex_val(hex_char(v)) == v,
        is_hex_digit(hex_char(v)),
{
}

proof fn lemma_nib_val(u: u128, j: int)
    requires
        1 <= j <= 32,
    ensures
        hex_seq_val(nib_chars(u).take(j)) == u >> (((32 - j) * 4) as u128),
    decreases j,
{
    let nc = nib_chars(u);
    assert(nc.take(j).drop_last() =~= nc.take(j - 1));
    let nib = nibble(u, j - 1);
    let shl: u128 = ((31 - (j - 1)) * 4) as u128;
    assert((u >> shl) & 0xf < 16) by (bit_vector);
    lemma_hex_round(nib as int);
    assert(nc.take(j).last() == nc[j - 1]);
    assert(nc[j - 1] == hex_char(nibble(u, j - 1) as int));
    assert(hex_val(nc[j - 1]) == nib);
    assert(hex_seq_val(nc.take(j)) == hex_seq_val(nc.take(j - 1)) * 16 + nib);
    if j == 1 {
        assert(hex_seq_val(nc.take(0)) == 0);
        assert(nib == (u >> 124u128) & 0xf);
        assert((u >> 124u128) & 0xf == u >> 124u128) by (bit_vector);
        assert(((32 - 1) * 4) as u128 == 124u128);
    } else {
        lemma_nib_val(u, j - 1);
        let b: u128 = ((32 - j) * 4) as u128;
        let b4: u128 = ((33 - j) * 4) as u128;
        assert(shl == b);
        assert(((32 - (j - 1)) * 4) as u128 == b4);
        assert(hex_seq_val(nc.take(j - 1)) == u >> b4);
        assert(nib == (u >> b) & 0xf);
        assert(u >> b == (u >> b4) * 16 + ((u >> b) & 0xf)) by (bit_vector)
            requires
                b <= 120 && b4 == b + 4,
        ;
        assert(hex_seq_val(nc.take(j)) == u >> b);
    }
}

/// Rendering an identifier and parsing the text yields the identifier
/// back: the canonical textual form names each identifier faithfully.
pub proof fn lemma_id_round_trip(u: u128)
    ensures
        spec_parse_id(id_chars(u)) == Some(u),
{
    let s = id_chars(u);
    assert forall|i: int| 0 <= i < 36 && !is_hyphen_pos(i) implies is_hex_digit(
        #[trigger] s[i],
    ) by {
        let sh: u128 = ((31 - digit_index(i)) * 4) as u128;
        assert((u >> sh) & 0xf < 16) by (bit_vector);
        lemma_hex_round(nibble(u, digit_index(i)) as int);
    }
    assert(is_canonical_id(s));
    assert forall|j: int| 0 <= j < 32 implies digits_of(s)[j] == nib_chars(u)[j] by {
        assert(!is_hyphen_pos(digit_pos(j)));
        assert(digit_index(digit_pos(j)) == j);
    }
    assert(digits_of(s) =~= nib_chars(u));
    lemma_nib_val(u, 32);
    assert(nib_chars(u).take(32) =~= nib_chars(u));
    assert(u >> 0u128 == u) by (bit_vector);
    assert(((32 - 32) * 4) as u128 == 0u128);
    assert(hex_seq_val(digits_of(s)) == u);
}

} // verus!
