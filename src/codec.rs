//! Record parser and binary encoder.
//!
//! A record is a line whose first eight bytes are ASCII decimal digits; it is
//! encoded as the four little-endian bytes of the unsigned 32-bit value that
//! those digits spell.
use vstd::prelude::*;

verus! {

/// Number of leading bytes of a line that hold the record's identifier.
pub const FIELD_WIDTH: usize = 8;

/// Number of bytes of one encoded record.
pub const WORD_SIZE: usize = 4;

pub open spec fn is_ascii_digit(b: u8) -> bool {
    0x30 <= b && b <= 0x39
}

/// The number that a string of decimal digits spells, most significant first.
pub open spec fn digits_value(s: Seq<u8>) -> nat
    decreases s.len(),
{
    if s.len() == 0 {
        0
    } else {
        digits_value(s.drop_last()) * 10 + (s.last() - 0x30) as nat
    }
}

pub open spec fn pow10(n: nat) -> nat
    decreases n,
{
    if n == 0 {
        1
    } else {
        10 * pow10((n - 1) as nat)
    }
}

/// A line carries a record when its first eight bytes are decimal digits.
pub open spec fn has_field(line: Seq<u8>) -> bool {
    line.len() >= FIELD_WIDTH && forall|i: int|
        0 <= i < FIELD_WIDTH ==> is_ascii_digit(#[trigger] line[i])
}

/// The identifier that a line carries.
pub open spec fn field_value(line: Seq<u8>) -> nat {
    digits_value(line.take(FIELD_WIDTH as int))
}

/// The four bytes of `v`, least significant first.
pub open spec fn word_bytes(v: nat) -> Seq<u8> {
    seq![
        (v % 0x100) as u8,
        ((v / 0x100) % 0x100) as u8,
        ((v / 0x1_0000) % 0x100) as u8,
        ((v / 0x100_0000) % 0x100) as u8,
    ]
}

/// The number that four little-endian bytes stand for.
pub open spec fn word_value(b: Seq<u8>) -> nat {
    b[0] as nat + 0x100 * b[1] as nat + 0x1_0000 * b[2] as nat + 0x100_0000 * b[3] as nat
}

/// The last `width` decimal digits of `n`, zero-padded, most significant first.
pub open spec fn padded_digits(n: nat, width: nat) -> Seq<u8>
    decreases width,
{
    if width == 0 {
        seq![]
    } else {
        padded_digits(n / 10, (width - 1) as nat).push((0x30 + n % 10) as u8)
    }
}

/// The words of a sequence of record lines, one after another.
pub open spec fn encoded(lines: Seq<Seq<u8>>) -> Seq<u8>
    decreases lines.len(),
{
    if lines.len() == 0 {
        seq![]
    } else {
        encoded(lines.drop_last()) + word_bytes(field_value(lines.last()))
    }
}

/// A line whose identifier field could not be read.
pub struct ParseError {
    pub raw_line: Vec<u8>,
}

pub proof fn lemma_digits_value_bound(s: Seq<u8>)
    requires
        forall|i: int| 0 <= i < s.len() ==> is_ascii_digit(#[trigger] s[i]),
    ensures
        digits_value(s) < pow10(s.len()),
    decreases s.len(),
{
    if s.len() > 0 {
        let p = s.drop_last();
        assert forall|i: int| 0 <= i < p.len() implies is_ascii_digit(#[trigger] p[i]) by {
            assert(p[i] == s[i]);
        }
        lemma_digits_value_bound(p);
        let d = (s.last() - 0x30) as nat;
        let a = digits_value(p);
        let q = pow10(p.len());
        assert(a * 10 + d < q * 10) by (nonlinear_arith)
            requires a < q, d < 10;
    }
}

/// A fresh vector holding `s[from..to]`.
pub(crate) fn copy_range(s: &[u8], from: usize, to: usize) -> (r: Vec<u8>)
    requires
        from <= to <= s@.len(),
    ensures
        r@ == s@.subrange(from as int, to as int),
{
    let mut r: Vec<u8> = Vec::new();
    let mut i: usize = from;
    while i < to
        invariant
            from <= i <= to <= s@.len(),
            r@ == s@.subrange(from as int, i as int),
        decreases to - i,
    {
        r.push(s[i]);
        i = i + 1;
        assert(r@ =~= s@.subrange(from as int, i as int));
    }
    r
}

/// Reads the identifier that leads `line`: its first eight bytes, as decimal
/// digits. Whatever follows them is ignored. Eight digits spell at most
/// 99 999 999, so the value always fits in 32 bits.
pub fn parse_record(line: &[u8]) -> (r: Result<u32, ParseError>)
    ensures
        r is Ok <==> has_field(line@),
        r matches Ok(v) ==> v as nat == field_value(line@),
        r matches Err(e) ==> e.raw_line@ == line@,
{
    proof {
        assert(line@.subrange(0, line@.len() as int) =~= line@);
    }
    if line.len() < FIELD_WIDTH {
        return Err(ParseError { raw_line: copy_range(line, 0, line.len()) });
    }
    let mut acc: u32 = 0;
    let mut i: usize = 0;
    while i < FIELD_WIDTH
        invariant
            FIELD_WIDTH <= line.len(),
            i <= FIELD_WIDTH,
            forall|j: int| 0 <= j < i ==> is_ascii_digit(#[trigger] line@[j]),
            acc as nat == digits_value(line@.take(i as int)),
            acc < pow10(i as nat),
        decreases FIELD_WIDTH - i,
    {
        let b = line[i];
        if b < 0x30 || b > 0x39 {
            return Err(ParseError { raw_line: copy_range(line, 0, line.len()) });
        }
        let ghost prefix = line@.take(i as int);
        let ghost next = line@.take(i + 1);
        assert(next.drop_last() =~= prefix);
        assert(pow10(i as nat) <= 10_000_000) by {
            reveal_with_fuel(pow10, 8);
        }
        let d = (b - 0x30) as u32;
        assert(acc * 10 + d < pow10(i as nat) * 10) by (nonlinear_arith)
            requires acc < pow10(i as nat), d < 10;
        acc = acc * 10 + d;
        i = i + 1;
    }
    Ok(acc)
}

/// The four little-endian bytes of `v`.
pub fn encode_word(v: u32) -> (w: [u8; 4])
    ensures
        w@ == word_bytes(v as nat),
{
    let w = [
        (v % 0x100) as u8,
        ((v / 0x100) % 0x100) as u8,
        ((v / 0x1_0000) % 0x100) as u8,
        ((v / 0x100_0000) % 0x100) as u8,
    ];
    assert(w@ =~= word_bytes(v as nat));
    w
}

/// The value of four little-endian bytes.
pub fn decode_word(w: [u8; 4]) -> (v: u32)
    ensures
        v as nat == word_value(w@),
{
    w[0] as u32 + 0x100 * (w[1] as u32) + 0x1_0000 * (w[2] as u32) + 0x100_0000 * (w[3] as u32)
}

/// Renders `v` as eight decimal digits, zero-padded on the left (the last
/// eight digits, for a value of more).
pub fn render_field(v: u32) -> (r: Vec<u8>)
    ensures
        r@ == padded_digits(v as nat, FIELD_WIDTH as nat),
{
    let mut digits: [u8; 8] = [0x30; 8];
    let mut n: u32 = v;
    let mut i: usize = FIELD_WIDTH;
    while i > 0
        invariant
            i <= FIELD_WIDTH,
            digits@.len() == FIELD_WIDTH,
            padded_digits(v as nat, FIELD_WIDTH as nat) == padded_digits(n as nat, i as nat)
                + digits@.skip(i as int),
        decreases i,
    {
        let ghost tail = digits@.skip(i as int);
        let d = (0x30 + n % 10) as u8;
        digits[i - 1] = d;
        assert(digits@.skip(i - 1) =~= seq![d] + tail);
        assert(padded_digits(n as nat, i as nat) == padded_digits((n / 10) as nat, (i - 1) as nat).push(d));
        assert(padded_digits((n / 10) as nat, (i - 1) as nat).push(d) + tail
            =~= padded_digits((n / 10) as nat, (i - 1) as nat) + (seq![d] + tail));
        n = n / 10;
        i = i - 1;
    }
    assert(padded_digits(n as nat, 0) =~= seq![]);
    assert(digits@.skip(0) =~= digits@);
    let mut r: Vec<u8> = Vec::new();
    let mut j: usize = 0;
    while j < FIELD_WIDTH
        invariant
            j <= FIELD_WIDTH,
            digits@.len() == FIELD_WIDTH,
            r@ == digits@.take(j as int),
        decreases FIELD_WIDTH - j,
    {
        r.push(digits[j]);
        j = j + 1;
        assert(r@ =~= digits@.take(j as int));
    }
    assert(r@ =~= digits@);
    r
}

/// Four bytes read back as a number give the number they were written from.
pub proof fn lemma_word_round_trip(v: nat)
    requires
        v < 0x1_0000_0000,
    ensures
        word_bytes(v).len() == WORD_SIZE,
        word_value(word_bytes(v)) == v,
{
    let b = word_bytes(v);
    assert(b[0] as nat == v % 0x100);
    assert(b[1] as nat == (v / 0x100) % 0x100);
    assert(b[2] as nat == (v / 0x1_0000) % 0x100);
    assert(b[3] as nat == (v / 0x100_0000) % 0x100);
    assert(v % 0x100 + 0x100 * ((v / 0x100) % 0x100) + 0x1_0000 * ((v / 0x1_0000) % 0x100)
        + 0x100_0000 * ((v / 0x100_0000) % 0x100) == v) by (nonlinear_arith)
        requires v < 0x1_0000_0000;
}

/// Rendering the number that a digit string spells, at the string's width,
/// gives the string back.
pub proof fn lemma_digits_round_trip(s: Seq<u8>)
    requires
        forall|i: int| 0 <= i < s.len() ==> is_ascii_digit(#[trigger] s[i]),
    ensures
        padded_digits(digits_value(s), s.len()) == s,
    decreases s.len(),
{
    if s.len() == 0 {
        assert(padded_digits(digits_value(s), 0) =~= s);
    } else {
        let p = s.drop_last();
        assert forall|i: int| 0 <= i < p.len() implies is_ascii_digit(#[trigger] p[i]) by {
            assert(p[i] == s[i]);
        }
        lemma_digits_round_trip(p);
        let a = digits_value(p);
        let d = (s.last() - 0x30) as nat;
        let n = digits_value(s);
        assert(n == a * 10 + d);
        assert(n / 10 == a && n % 10 == d) by (nonlinear_arith)
            requires n == a * 10 + d, d < 10;
        assert(padded_digits(n, s.len()) == padded_digits(a, p.len()).push((0x30 + d) as u8));
        assert(s =~= p.push(s.last()));
    }
}

/// Each record takes exactly four bytes of output.
pub proof fn lemma_encoded_len(lines: Seq<Seq<u8>>)
    ensures
        encoded(lines).len() == WORD_SIZE * lines.len(),
    decreases lines.len(),
{
    if lines.len() > 0 {
        lemma_encoded_len(lines.drop_last());
    }
}

/// The word at index `i` of the output is the encoding of line `i`, so a
/// record can be found at byte offset `4 * i`.
pub proof fn lemma_encoded_word(lines: Seq<Seq<u8>>, i: int)
    requires
        0 <= i < lines.len(),
    ensures
        encoded(lines).subrange(WORD_SIZE * i, WORD_SIZE * i + WORD_SIZE) == word_bytes(
            field_value(lines[i]),
        ),
    decreases lines.len(),
{
    let p = lines.drop_last();
    lemma_encoded_len(p);
    if i == lines.len() - 1 {
        assert(encoded(lines).subrange(WORD_SIZE * i, WORD_SIZE * i + WORD_SIZE) =~= word_bytes(
            field_value(lines[i]),
        ));
    } else {
        lemma_encoded_word(p, i);
        assert(encoded(lines).subrange(WORD_SIZE * i, WORD_SIZE * i + WORD_SIZE) =~= encoded(
            p,
        ).subrange(WORD_SIZE * i, WORD_SIZE * i + WORD_SIZE));
    }
}

/// Reading a record's word back and rendering it as eight digits gives the
/// line's identifier field again.
pub proof fn lemma_record_round_trip(lines: Seq<Seq<u8>>, i: int)
    requires
        0 <= i < lines.len(),
        has_field(lines[i]),
    ensures
        padded_digits(
            word_value(encoded(lines).subrange(WORD_SIZE * i, WORD_SIZE * i + WORD_SIZE)),
            FIELD_WIDTH as nat,
        ) == lines[i].take(FIELD_WIDTH as int),
{
    let f = lines[i].take(FIELD_WIDTH as int);
    assert forall|j: int| 0 <= j < f.len() implies is_ascii_digit(#[trigger] f[j]) by {
        assert(f[j] == lines[i][j]);
    }
    lemma_digits_value_bound(f);
    assert(pow10(8) == 100_000_000) by {
        reveal_with_fuel(pow10, 9);
    }
    lemma_encoded_word(lines, i);
    lemma_word_round_trip(field_value(lines[i]));
    lemma_digits_round_trip(f);
}

} // verus!
