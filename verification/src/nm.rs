use vstd::prelude::*;

use crate::definitions::{ElfParser, Symbol, SymbolKind, SymbolView, symbols_view};
use crate::text::{chars_of, is_white_space, is_whitespace, is_blank, push_str, string_from_chars, string_from_str};

verus! {

/// Why a decimal number could not be read (the kinds of `ParseIntError`
/// that `u64::from_str` gives).
#[derive(Debug, Clone, Copy, PartialEq, Eq, Structural)]
pub enum IntParseError {
    Empty,
    InvalidDigit,
    PosOverflow,
}

pub open spec fn is_digit(c: char) -> bool {
    48 <= (c as u32) <= 57
}

pub open spec fn digit_value(c: char) -> nat {
    ((c as u32) - 48) as nat
}

/// The value of a string of decimal digits, read from the left: the first
/// non-digit is an invalid digit, and a value past `u64::MAX` an overflow,
/// whichever comes first.
pub open spec fn digits_value(d: Seq<char>) -> Result<u64, IntParseError>
    decreases d.len(),
{
    if d.len() == 0 {
        Ok(0)
    } else {
        match digits_value(d.drop_last()) {
            Err(e) => Err(e),
            Ok(v) => if !is_digit(d.last()) {
                Err(IntParseError::InvalidDigit)
            } else if v * 10 + digit_value(d.last()) > u64::MAX {
                Err(IntParseError::PosOverflow)
            } else {
                Ok((v * 10 + digit_value(d.last())) as u64)
            },
        }
    }
}

/// What `s.parse::<u64>()` gives: an optional leading '+', then decimal
/// digits.
pub open spec fn parse_u64(s: Seq<char>) -> Result<u64, IntParseError> {
    if s.len() == 0 {
        Err(IntParseError::Empty)
    } else if s.len() == 1 && (s[0] == '+' || s[0] == '-') {
        Err(IntParseError::InvalidDigit)
    } else if s[0] == '+' {
        digits_value(s.drop_first())
    } else {
        digits_value(s)
    }
}

proof fn lemma_digits_error_persists(d: Seq<char>, k: int)
    requires
        0 <= k <= d.len(),
        digits_value(d.take(k)) is Err,
    ensures
        digits_value(d) == digits_value(d.take(k)),
    decreases d.len() - k,
{
    if k < d.len() {
        assert(d.take(k + 1).drop_last() == d.take(k));
        lemma_digits_error_persists(d, k + 1);
    } else {
        assert(d.take(k) == d);
    }
}

fn digits_value_range(c: &Vec<char>, lo: usize, hi: usize) -> (r: Result<u64, IntParseError>)
    requires
        lo <= hi <= c.len(),
    ensures
        r == digits_value(c@.subrange(lo as int, hi as int)),
{
    let ghost d = c@.subrange(lo as int, hi as int);
    let mut v: u64 = 0;
    let mut i = lo;
    assert(d.take(0) =~= Seq::<char>::empty());
    while i < hi
        invariant
            lo <= i <= hi <= c.len(),
            d == c@.subrange(lo as int, hi as int),
            digits_value(d.take(i - lo)) == Ok::<u64, IntParseError>(v),
        decreases hi - i,
    {
        let ch = c[i];
        let ghost t = d.take(i - lo + 1);
        assert(t.drop_last() == d.take(i - lo));
        assert(t.last() == ch);
        let u = ch as u32;
        if u < 48 || u > 57 {
            proof {
                lemma_digits_error_persists(d, i - lo + 1);
            }
            return Err(IntParseError::InvalidDigit);
        }
        let dv: u64 = (u - 48) as u64;
        if v > (u64::MAX - dv) / 10 {
            assert(v * 10 + dv > u64::MAX) by (nonlinear_arith)
                requires
                    v > (u64::MAX - dv) / 10,
                    dv <= 9,
            ;
            proof {
                lemma_digits_error_persists(d, i - lo + 1);
            }
            return Err(IntParseError::PosOverflow);
        }
        assert(v * 10 + dv <= u64::MAX) by (nonlinear_arith)
            requires
                v <= (u64::MAX - dv) / 10,
                dv <= 9,
        ;
        v = v * 10 + dv;
        i += 1;
    }
    assert(d.take(hi - lo) == d);
    Ok(v)
}

/// Reads `c[lo..hi]` as `u64::from_str` would.
pub fn parse_u64_range(c: &Vec<char>, lo: usize, hi: usize) -> (r: Result<u64, IntParseError>)
    requires
        lo <= hi <= c.len(),
    ensures
        r == parse_u64(c@.subrange(lo as int, hi as int)),
{
    let ghost s = c@.subrange(lo as int, hi as int);
    if lo == hi {
        return Err(IntParseError::Empty);
    }
    assert(s[0] == c@[lo as int]);
    if hi - lo == 1 && (c[lo] == '+' || c[lo] == '-') {
        return Err(IntParseError::InvalidDigit);
    }
    if c[lo] == '+' {
        assert(s.drop_first() == c@.subrange(lo + 1, hi as int));
        digits_value_range(c, lo + 1, hi)
    } else {
        digits_value_range(c, lo, hi)
    }
}

/// The position of the first space in `s`, if any.
#[verifier::opaque]
pub open spec fn first_space(s: Seq<char>) -> Option<int> {
    if exists|p: int| 0 <= p < s.len() && s[p] == ' ' {
        Some(
            choose|p: int|
                0 <= p < s.len() && s[p] == ' ' && forall|q: int| 0 <= q < p ==> s[q] != ' ',
        )
    } else {
        None
    }
}

proof fn lemma_first_space_at(s: Seq<char>, p: int)
    requires
        0 <= p < s.len(),
        s[p] == ' ',
        forall|q: int| 0 <= q < p ==> s[q] != ' ',
    ensures
        first_space(s) == Some(p),
{
    reveal(first_space);
    assert(exists|p: int| 0 <= p < s.len() && s[p] == ' ');
    let c = choose|p: int|
        0 <= p < s.len() && s[p] == ' ' && forall|q: int| 0 <= q < p ==> s[q] != ' ';
    assert(0 <= c < s.len() && s[c] == ' ' && forall|q: int| 0 <= q < c ==> s[q] != ' ');
    if c < p {
        assert(s[c] != ' ');
    }
    if p < c {
        assert(s[p] != ' ');
    }
}

/// The pieces of `s` between spaces, at most `n` of them, the last holding
/// the rest: `str::splitn(n, ' ')` for `n >= 1`.
pub open spec fn split_n(s: Seq<char>, n: nat) -> Seq<Seq<char>>
    decreases n,
{
    if n <= 1 {
        seq![s]
    } else {
        match first_space(s) {
            None => seq![s],
            Some(p) => seq![s.take(p)] + split_n(s.skip(p + 1), (n - 1) as nat),
        }
    }
}

/// The first space in `c[lo..hi]`, as an index of `c`.
fn find_space(c: &Vec<char>, lo: usize, hi: usize) -> (r: Option<usize>)
    requires
        lo <= hi <= c.len(),
    ensures
        match r {
            Some(p) => lo <= p < hi && first_space(c@.subrange(lo as int, hi as int)) == Some(
                p - lo,
            ),
            None => first_space(c@.subrange(lo as int, hi as int)) is None,
        },
{
    let ghost s = c@.subrange(lo as int, hi as int);
    let mut i = lo;
    while i < hi
        invariant
            lo <= i <= hi <= c.len(),
            s == c@.subrange(lo as int, hi as int),
            forall|q: int| 0 <= q < i - lo ==> s[q] != ' ',
        decreases hi - i,
    {
        if c[i] == ' ' {
            proof {
                lemma_first_space_at(s, i - lo);
            }
            return Some(i);
        }
        i += 1;
    }
    assert(!(exists|p: int| 0 <= p < s.len() && s[p] == ' '));
    proof {
        reveal(first_space);
    }
    None
}

/// Whether `c[lo..hi]` is all white space.
fn blank_range(c: &Vec<char>, lo: usize, hi: usize) -> (b: bool)
    requires
        lo <= hi <= c.len(),
    ensures
        b == is_blank(c@.subrange(lo as int, hi as int)),
{
    let ghost s = c@.subrange(lo as int, hi as int);
    let mut i = lo;
    while i < hi
        invariant
            lo <= i <= hi <= c.len(),
            s == c@.subrange(lo as int, hi as int),
            forall|q: int| 0 <= q < i - lo ==> is_white_space(#[trigger] s[q]),
        decreases hi - i,
    {
        if !is_whitespace(c[i]) {
            assert(!is_white_space(s[i - lo]));
            return false;
        }
        i += 1;
    }
    true
}

/// The kind that an `nm` type letter stands for.
pub open spec fn nm_kind(letter: char) -> SymbolKind {
    if letter == 'T' || letter == 't' {
        SymbolKind::Code
    } else if letter == 'D' || letter == 'd' {
        SymbolKind::Data
    } else if letter == 'B' || letter == 'b' {
        SymbolKind::Bss
    } else if letter == 'R' || letter == 'r' {
        SymbolKind::RoData
    } else if letter == 'W' || letter == 'w' {
        SymbolKind::Weak
    } else if letter == 'U' {
        SymbolKind::Undefined
    } else {
        SymbolKind::Other
    }
}

fn nm_kind_of(letter: char) -> (k: SymbolKind)
    ensures
        k == nm_kind(letter),
        k == SymbolKind::Code <==> letter == 'T' || letter == 't',
        k == SymbolKind::Data <==> letter == 'D' || letter == 'd',
        k == SymbolKind::Bss <==> letter == 'B' || letter == 'b',
        k == SymbolKind::RoData <==> letter == 'R' || letter == 'r',
        k == SymbolKind::Weak <==> letter == 'W' || letter == 'w',
        k == SymbolKind::Undefined <==> letter == 'U',
{
    if letter == 'T' || letter == 't' {
        SymbolKind::Code
    } else if letter == 'D' || letter == 'd' {
        SymbolKind::Data
    } else if letter == 'B' || letter == 'b' {
        SymbolKind::Bss
    } else if letter == 'R' || letter == 'r' {
        SymbolKind::RoData
    } else if letter == 'W' || letter == 'w' {
        SymbolKind::Weak
    } else if letter == 'U' {
        SymbolKind::Undefined
    } else {
        SymbolKind::Other
    }
}

/// The first character of the type field, or '?' when it is empty.
pub open spec fn type_letter(field: Seq<char>) -> char {
    if field.len() > 0 {
        field[0]
    } else {
        '?'
    }
}

/// What one line of `nm --print-size --size-sort --radix=d` output says.
pub enum NmLineOutcome {
    /// A blank line, or one without four space-separated fields.
    Skip,
    Keep(SymbolView),
    /// The size field is not a decimal number.
    Bad(IntParseError),
}

/// The outcome of one line: fields are address, size, type and name.
pub open spec fn nm_line_outcome(line: Seq<char>) -> NmLineOutcome {
    if is_blank(line) {
        NmLineOutcome::Skip
    } else {
        let parts = split_n(line, 4);
        if parts.len() != 4 {
            NmLineOutcome::Skip
        } else {
            match parse_u64(parts[1]) {
                Err(k) => NmLineOutcome::Bad(k),
                Ok(n) => NmLineOutcome::Keep(
                    SymbolView {
                        name: parts[3],
                        size: n as usize,
                        kind: nm_kind(type_letter(parts[2])),
                        address: 0,
                    },
                ),
            }
        }
    }
}

proof fn lemma_split_at_space(c: Seq<char>, lo: int, hi: int, p: int, n: nat)
    requires
        0 <= lo <= p < hi <= c.len(),
        first_space(c.subrange(lo, hi)) == Some(p - lo),
        n >= 2,
    ensures
        split_n(c.subrange(lo, hi), n) == seq![c.subrange(lo, p)] + split_n(
            c.subrange(p + 1, hi),
            (n - 1) as nat,
        ),
{
    assert(c.subrange(lo, hi).take(p - lo) =~= c.subrange(lo, p));
    assert(c.subrange(lo, hi).skip(p - lo + 1) =~= c.subrange(p + 1, hi));
}

proof fn lemma_split_no_space(c: Seq<char>, lo: int, hi: int, n: nat)
    requires
        0 <= lo <= hi <= c.len(),
        first_space(c.subrange(lo, hi)) is None,
        n >= 1,
    ensures
        split_n(c.subrange(lo, hi), n) == seq![c.subrange(lo, hi)],
{
}

/// The positions of the first three spaces of `c[lo..hi]`, when it has
/// three: then its four `splitn` fields lie between them.
fn split_line(c: &Vec<char>, lo: usize, hi: usize) -> (r: Option<(usize, usize, usize)>)
    requires
        lo <= hi <= c.len(),
    ensures
        match r {
            Some((p1, p2, p3)) => lo <= p1 < p2 < p3 < hi && split_n(
                c@.subrange(lo as int, hi as int),
                4,
            ) == seq![
                c@.subrange(lo as int, p1 as int),
                c@.subrange(p1 + 1, p2 as int),
                c@.subrange(p2 + 1, p3 as int),
                c@.subrange(p3 + 1, hi as int),
            ],
            None => split_n(c@.subrange(lo as int, hi as int), 4).len() != 4,
        },
{
    let p1 = match find_space(c, lo, hi) {
        Some(p) => p,
        None => {
            proof {
                lemma_split_no_space(c@, lo as int, hi as int, 4);
            }
            return None;
        },
    };
    proof {
        lemma_split_at_space(c@, lo as int, hi as int, p1 as int, 4);
    }
    let p2 = match find_space(c, p1 + 1, hi) {
        Some(p) => p,
        None => {
            proof {
                lemma_split_no_space(c@, p1 + 1, hi as int, 3);
            }
            return None;
        },
    };
    proof {
        lemma_split_at_space(c@, p1 + 1, hi as int, p2 as int, 3);
    }
    let p3 = match find_space(c, p2 + 1, hi) {
        Some(p) => p,
        None => {
            proof {
                lemma_split_at_space(c@, p1 + 1, hi as int, p2 as int, 3);
                lemma_split_no_space(c@, p2 + 1, hi as int, 2);
            }
            return None;
        },
    };
    proof {
        lemma_split_at_space(c@, p2 + 1, hi as int, p3 as int, 2);
        assert(split_n(c@.subrange(p3 + 1, hi as int), 1) == seq![c@.subrange(p3 + 1, hi as int)]);
        assert(split_n(c@.subrange(lo as int, hi as int), 4) =~= seq![
            c@.subrange(lo as int, p1 as int),
            c@.subrange(p1 + 1, p2 as int),
            c@.subrange(p2 + 1, p3 as int),
            c@.subrange(p3 + 1, hi as int),
        ]);
    }
    Some((p1, p2, p3))
}

enum LineResult {
    Skip,
    Keep(Symbol),
    Bad(IntParseError),
}

/// The outcome of the line `c[lo..hi]`.
fn nm_line(c: &Vec<char>, lo: usize, hi: usize) -> (r: LineResult)
    requires
        lo <= hi <= c.len(),
    ensures
        match (r, nm_line_outcome(c@.subrange(lo as int, hi as int))) {
            (LineResult::Skip, NmLineOutcome::Skip) => true,
            (LineResult::Keep(s), NmLineOutcome::Keep(v)) => s@ == v,
            (LineResult::Bad(e), NmLineOutcome::Bad(k)) => e == k,
            _ => false,
        },
{
    if blank_range(c, lo, hi) {
        return LineResult::Skip;
    }
    let (p1, p2, p3) = match split_line(c, lo, hi) {
        Some(t) => t,
        None => {
            return LineResult::Skip;
        },
    };
    match parse_u64_range(c, p1 + 1, p2) {
        Err(k) => LineResult::Bad(k),
        Ok(n) => {
            let letter = if p2 + 1 < p3 {
                c[p2 + 1]
            } else {
                '?'
            };
            assert(letter == type_letter(c@.subrange(p2 + 1, p3 as int)));
            let name = string_from_chars(c, p3 + 1, hi);
            LineResult::Keep(
                Symbol { name, size: n as usize, kind: nm_kind_of(letter), address: 0 },
            )
        },
    }
}

/// A line without the '\r' that `str::lines` drops before a '\n'.
pub open spec fn strip_cr(l: Seq<char>) -> Seq<char> {
    if l.len() > 0 && l.last() == '\r' {
        l.drop_last()
    } else {
        l
    }
}

/// Scanning `s` from the left: the lines ended by '\n' so far (each without
/// its line ending), and the characters of the line not yet ended.
pub open spec fn line_scan(s: Seq<char>) -> (Seq<Seq<char>>, Seq<char>)
    decreases s.len(),
{
    if s.len() == 0 {
        (seq![], seq![])
    } else {
        let (done, cur) = line_scan(s.drop_last());
        if s.last() == '\n' {
            (done.push(strip_cr(cur)), seq![])
        } else {
            (done, cur.push(s.last()))
        }
    }
}

/// The lines of `s`, as `str::lines` yields them: split at '\n', a "\r\n"
/// ending counted as one line ending, and no empty line after a final '\n'.
pub open spec fn text_lines(s: Seq<char>) -> Seq<Seq<char>> {
    let (done, cur) = line_scan(s);
    if cur.len() == 0 {
        done
    } else {
        done.push(cur)
    }
}

/// The symbols read so far, or the first line whose size field failed to
/// parse, with the reason.
pub type NmResultView = Result<Seq<SymbolView>, (Seq<char>, IntParseError)>;

pub open spec fn nm_step(acc: NmResultView, line: Seq<char>) -> NmResultView {
    match acc {
        Err(e) => Err(e),
        Ok(v) => match nm_line_outcome(line) {
            NmLineOutcome::Skip => Ok(v),
            NmLineOutcome::Keep(s) => Ok(v.push(s)),
            NmLineOutcome::Bad(k) => Err((line, k)),
        },
    }
}

pub open spec fn nm_fold(lines: Seq<Seq<char>>) -> NmResultView
    decreases lines.len(),
{
    if lines.len() == 0 {
        Ok(seq![])
    } else {
        nm_step(nm_fold(lines.drop_last()), lines.last())
    }
}

/// What the output of `nm --print-size --size-sort --radix=d` says: its
/// symbols in line order, or the first line with an unreadable size.
pub open spec fn nm_parse(text: Seq<char>) -> NmResultView {
    nm_fold(text_lines(text))
}

proof fn lemma_split_first_field(a: Seq<char>, rest: Seq<char>, n: nat)
    requires
        forall|i: int| 0 <= i < a.len() ==> a[i] != ' ',
        n >= 2,
    ensures
        split_n(a + seq![' '] + rest, n) == seq![a] + split_n(rest, (n - 1) as nat),
{
    let s = a + seq![' '] + rest;
    assert forall|q: int| 0 <= q < a.len() implies s[q] != ' ' by {
        assert(s[q] == a[q]);
    }
    lemma_first_space_at(s, a.len() as int);
    assert(s.take(a.len() as int) =~= a);
    assert(s.skip(a.len() + 1int) =~= rest);
}

proof fn lemma_scan_without_newline(s: Seq<char>)
    requires
        forall|i: int| 0 <= i < s.len() ==> s[i] != '\n',
    ensures
        line_scan(s) == (Seq::<Seq<char>>::empty(), s),
    decreases s.len(),
{
    if s.len() > 0 {
        lemma_scan_without_newline(s.drop_last());
        assert(s.drop_last().push(s.last()) =~= s);
    }
}

/// Law: one well-formed line of `nm` output (address, size, type letter and
/// name, separated by single spaces and ended by a newline) gives exactly
/// one symbol: that name, that size, and the kind its letter stands for.
/// `T`/`t` is code, `D`/`d` initialized data, `B`/`b` uninitialized data,
/// `R`/`r` read-only data, `W`/`w` weak, `U` undefined, any other letter
/// other.
pub proof fn lemma_nm_one_line(address: Seq<char>, size: Seq<char>, letter: char, name: Seq<char>)
    requires
        forall|i: int| 0 <= i < address.len() ==> address[i] != ' ' && address[i] != '\n',
        forall|i: int| 0 <= i < size.len() ==> size[i] != ' ' && size[i] != '\n',
        parse_u64(size) is Ok,
        !is_white_space(letter),
        forall|i: int| 0 <= i < name.len() ==> name[i] != '\n',
        name.len() > 0 ==> name.last() != '\r',
    ensures
        ({
            let text = address + seq![' '] + size + seq![' '] + seq![letter] + seq![' '] + name + seq![
                '\n',
            ];
            &&& nm_parse(text) matches Ok(v)
            &&& v.len() == 1
            &&& v[0].name == name
            &&& v[0].size == (parse_u64(size)->Ok_0) as usize
            &&& v[0].address == 0
            &&& v[0].kind == SymbolKind::Code <==> letter == 'T' || letter == 't'
            &&& v[0].kind == SymbolKind::Data <==> letter == 'D' || letter == 'd'
            &&& v[0].kind == SymbolKind::Bss <==> letter == 'B' || letter == 'b'
            &&& v[0].kind == SymbolKind::RoData <==> letter == 'R' || letter == 'r'
            &&& v[0].kind == SymbolKind::Weak <==> letter == 'W' || letter == 'w'
            &&& v[0].kind == SymbolKind::Undefined <==> letter == 'U'
            &&& v[0].kind == SymbolKind::Other <==> !(letter == 'T' || letter == 't' || letter == 'D'
                || letter == 'd' || letter == 'B' || letter == 'b' || letter == 'R' || letter == 'r'
                || letter == 'W' || letter == 'w' || letter == 'U')
        }),
{
    let r2 = seq![letter] + seq![' '] + name;
    let r1 = size + seq![' '] + r2;
    let line = address + seq![' '] + r1;
    let text = address + seq![' '] + size + seq![' '] + seq![letter] + seq![' '] + name + seq!['\n'];
    assert(text =~= line.push('\n'));
    // the fields
    lemma_split_first_field(address, r1, 4);
    lemma_split_first_field(size, r2, 3);
    lemma_split_first_field(seq![letter], name, 2);
    assert(split_n(name, 1) == seq![name]);
    let parts = split_n(line, 4);
    assert(parts =~= seq![address, size, seq![letter], name]);
    // the line is not blank: it holds the letter
    let at: int = address.len() + 1int + size.len() + 1int;
    assert(line[at] == letter);
    assert(!is_blank(line));
    // the text is that one line
    assert forall|i: int| 0 <= i < line.len() implies line[i] != '\n' by {
        if i < address.len() {
            assert(line[i] == address[i]);
        } else if i > address.len() {
            let j = i - address.len() - 1;
            assert(line[i] == r1[j]);
            if j < size.len() {
                assert(r1[j] == size[j]);
            } else if j > size.len() {
                assert(r1[j] == r2[j - size.len() - 1]);
                if j - size.len() - 1 >= 2 {
                    assert(r2[j - size.len() - 1] == name[j - size.len() - 3]);
                }
            }
        }
    }
    lemma_scan_without_newline(line);
    assert(text.drop_last() =~= line);
    assert(line.last() != '\r') by {
        if name.len() > 0 {
            assert(line.last() == name.last());
        }
    }
    assert(strip_cr(line) == line);
    assert(text_lines(text) =~= seq![line]);
    assert(seq![line].drop_last() =~= Seq::<Seq<char>>::empty());
    assert(nm_fold(seq![line]) == nm_step(nm_fold(Seq::<Seq<char>>::empty()), line));
    assert(type_letter(parts[2]) == letter);
}

/// A line of `nm` output whose size field is not a number.
#[derive(Debug, Clone)]
pub struct NmLineError {
    pub line: String,
    pub reason: IntParseError,
}

/// The text that `ParseIntError`'s `Display` gives for each kind.
pub open spec fn int_error_text(k: IntParseError) -> Seq<char> {
    match k {
        IntParseError::Empty => "cannot parse integer from empty string"@,
        IntParseError::InvalidDigit => "invalid digit found in string"@,
        IntParseError::PosOverflow => "number too large to fit in target type"@,
    }
}

impl NmLineError {
    /// "Failed to parse size from line <line>: <reason>".
    pub fn message(&self) -> (m: String)
        ensures
            m@ == "Failed to parse size from line "@ + self.line@ + ": "@ + int_error_text(
                self.reason,
            ),
    {
        let mut m = string_from_str("Failed to parse size from line ");
        push_str(&mut m, self.line.as_str());
        push_str(&mut m, ": ");
        match self.reason {
            IntParseError::Empty => push_str(&mut m, "cannot parse integer from empty string"),
            IntParseError::InvalidDigit => push_str(&mut m, "invalid digit found in string"),
            IntParseError::PosOverflow => push_str(&mut m, "number too large to fit in target type"),
        }
        m
    }
}

pub open spec fn nm_state_view(syms: Seq<Symbol>, err: Option<NmLineError>) -> NmResultView {
    match err {
        Some(e) => Err((e.line@, e.reason)),
        None => Ok(symbols_view(syms)),
    }
}

fn nm_take_line(
    c: &Vec<char>,
    lo: usize,
    hi: usize,
    syms: &mut Vec<Symbol>,
    err: &mut Option<NmLineError>,
)
    requires
        lo <= hi <= c.len(),
    ensures
        nm_state_view(final(syms)@, *final(err)) == nm_step(
            nm_state_view(old(syms)@, *old(err)),
            c@.subrange(lo as int, hi as int),
        ),
{
    if err.is_some() {
        return;
    }
    match nm_line(c, lo, hi) {
        LineResult::Skip => {},
        LineResult::Keep(s) => {
            let ghost before = syms@;
            syms.push(s);
            assert(symbols_view(syms@) == symbols_view(before).push(s@));
        },
        LineResult::Bad(k) => {
            *err = Some(NmLineError { line: string_from_chars(c, lo, hi), reason: k });
        },
    }
}

/// Reads the output of `nm --print-size --size-sort --radix=d`: each
/// non-blank line with at least four space-separated fields (address, size,
/// type, name) gives a symbol; the first line whose size is not a number is
/// an error.
pub fn parse_nm_output(output: &str) -> (r: Result<Vec<Symbol>, NmLineError>)
    ensures
        match r {
            Ok(v) => nm_parse(output@) == Ok::<Seq<SymbolView>, (Seq<char>, IntParseError)>(
                symbols_view(v@),
            ),
            Err(e) => nm_parse(output@) == Err::<Seq<SymbolView>, (Seq<char>, IntParseError)>(
                (e.line@, e.reason),
            ),
        },
{
    let c = chars_of(output);
    let mut syms: Vec<Symbol> = Vec::new();
    let mut err: Option<NmLineError> = None;
    let mut start: usize = 0;
    let mut i: usize = 0;
    let ghost mut done: Seq<Seq<char>> = seq![];
    assert(c@.take(0) =~= Seq::<char>::empty());
    assert(c@.subrange(0, 0) =~= Seq::<char>::empty());
    assert(symbols_view(syms@) =~= Seq::<SymbolView>::empty());
    while i < c.len()
        invariant
            start <= i <= c.len(),
            line_scan(c@.take(i as int)) == (done, c@.subrange(start as int, i as int)),
            nm_state_view(syms@, err) == nm_fold(done),
        decreases c.len() - i,
    {
        assert(c@.take(i + 1).drop_last() == c@.take(i as int));
        assert(c@.take(i + 1).last() == c@[i as int]);
        if c[i] == '\n' {
            let end = if start < i && c[i - 1] == '\r' {
                i - 1
            } else {
                i
            };
            assert(strip_cr(c@.subrange(start as int, i as int)) == c@.subrange(
                start as int,
                end as int,
            ));
            nm_take_line(&c, start, end, &mut syms, &mut err);
            proof {
                assert(done.push(c@.subrange(start as int, end as int)).drop_last() == done);
                done = done.push(c@.subrange(start as int, end as int));
            }
            start = i + 1;
            assert(c@.subrange(start as int, i + 1) =~= Seq::<char>::empty());
        } else {
            assert(c@.subrange(start as int, i + 1) == c@.subrange(start as int, i as int).push(
                c@[i as int],
            ));
        }
        i += 1;
    }
    assert(c@.take(c.len() as int) == c@);
    if start < c.len() {
        nm_take_line(&c, start, c.len(), &mut syms, &mut err);
        assert(done.push(c@.subrange(start as int, c.len() as int)).drop_last() == done);
    }
    match err {
        Some(e) => Err(e),
        None => Ok(syms),
    }
}

/// The characters that `String::from_utf8_lossy` gives for these bytes.
pub uninterp spec fn utf8_lossy(bytes: Seq<u8>) -> Seq<char>;

/// Calls `String::from_utf8_lossy`. Claimed: the result is a function of the
/// bytes, and valid UTF-8 is decoded as it stands (the documented behaviour;
/// what replaces invalid sequences is left unsaid).
#[verifier::external_body]
fn decode_utf8_lossy(bytes: &[u8]) -> (s: String)
    ensures
        s@ == utf8_lossy(bytes@),
        vstd::utf8::valid_utf8(bytes@) ==> s@ == vstd::utf8::decode_utf8(bytes@),
{
    String::from_utf8_lossy(bytes).into_owned()
}

/// Reads symbols from the output of the `nm` tool.
pub struct NmParser {
    pub nm_path: String,
}

impl Default for NmParser {
    fn default() -> (p: Self)
        ensures
            p.nm_path@ == "nm"@,
    {
        NmParser { nm_path: string_from_str("nm") }
    }
}

impl NmParser {
    /// The arguments with which `nm` is run on the file at `path`.
    pub fn arguments(&self, path: &str) -> (args: Vec<String>)
        ensures
            args@.len() == 4,
            args@[0]@ == "--print-size"@,
            args@[1]@ == "--size-sort"@,
            args@[2]@ == "--radix=d"@,
            args@[3]@ == path@,
    {
        let mut args = Vec::new();
        args.push(string_from_str("--print-size"));
        args.push(string_from_str("--size-sort"));
        args.push(string_from_str("--radix=d"));
        args.push(string_from_str(path));
        args
    }
}

/// What the `nm` parser gives for the output bytes `input`.
pub open spec fn nm_symbol_list(input: Seq<u8>) -> Result<Seq<SymbolView>, Seq<char>> {
    match nm_parse(utf8_lossy(input)) {
        Ok(v) => Ok(v),
        Err((line, k)) => Err(
            "Failed to parse size from line "@ + line + ": "@ + int_error_text(k),
        ),
    }
}

impl ElfParser for NmParser {
    /// The symbols listed in `input`, the standard output of
    /// `nm --print-size --size-sort --radix=d` (see `arguments`).
    fn get_symbols(&self, input: &[u8]) -> (r: Result<Vec<Symbol>, String>)
        ensures
            match r {
                Ok(v) => nm_symbol_list(input@) == Ok::<Seq<SymbolView>, Seq<char>>(
                    symbols_view(v@),
                ),
                Err(e) => nm_symbol_list(input@) == Err::<Seq<SymbolView>, Seq<char>>(e@),
            },
    {
        let text = decode_utf8_lossy(input);
        match parse_nm_output(text.as_str()) {
            Ok(v) => Ok(v),
            Err(e) => Err(e.message()),
        }
    }
}

} // verus!
