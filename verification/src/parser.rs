//! The DTS grammar front-end: a recursive-descent parser over bytes that
//! lexes comments and whitespace, recognizes numeric literals in three
//! radices, C-style escaped strings, labels, references, `/memreserve/`
//! directives, and produces the tree of nodes, properties and data items.

use vstd::prelude::*;
use vstd::arithmetic::div_mod::lemma_fundamental_div_mod;
use crate::bytes::copy_range;
use crate::tree::{Data, DataV, data_view, cell_view, Property, PropV, prop_view, Node, NodeV, node_view, ReserveInfo, BootInfo, contains_label, labels_view};
use crate::store::{name_literal, node_wf, children_wf, SLASH, AMP};

verus! {

/// A parse failure, each carrying the byte offset at which it occurred.
#[derive(Debug, PartialEq, Eq)]
pub enum ParseError {
    /// A grammar production failed at the offset.
    Syntax(usize),
    /// A numeric literal exceeds the target width.
    NumericOverflow(usize),
    /// A `\xHH` escape above 0x7F.
    EscapeOutOfRange(usize),
}

/// The value of one digit byte; 99 marks a non-digit.
pub open spec fn digit_val(b: u8) -> nat {
    if 48 <= b && b <= 57 {
        (b - 48) as nat
    } else if 97 <= b && b <= 102 {
        (b - 87) as nat
    } else if 65 <= b && b <= 70 {
        (b - 55) as nat
    } else {
        99
    }
}

/// Every byte of the run is a digit of the radix.
pub open spec fn digits_ok(s: Seq<u8>, radix: nat) -> bool {
    forall|i: int| 0 <= i < s.len() ==> digit_val(s[i]) < radix
}

/// The integer a digit run denotes in the radix.
pub open spec fn digits_val(s: Seq<u8>, radix: nat) -> nat
    decreases s.len(),
{
    if s.len() == 0 {
        0
    } else {
        digits_val(s.drop_last(), radix) * radix + digit_val(s.last())
    }
}

/// A longer digit run never denotes a smaller value.
pub proof fn lemma_digits_prefix_le(s: Seq<u8>, i: int, radix: nat)
    requires
        0 <= i <= s.len(),
        radix >= 1,
    ensures
        digits_val(s.take(i), radix) <= digits_val(s, radix),
    decreases s.len(),
{
    if i == s.len() {
        assert(s.take(i) =~= s);
    } else {
        assert(s.take(i) =~= s.drop_last().take(i));
        lemma_digits_prefix_le(s.drop_last(), i, radix);
        let d = digits_val(s.drop_last(), radix);
        assert(d * radix >= d) by (nonlinear_arith)
            requires
                radix >= 1,
                d >= 0,
        ;
    }
}

/// Whether a byte may appear in a property or node name.
pub fn is_prop_node_char(c: u8) -> (r: bool)
    ensures
        r == spec_is_prop_node_char(c),
{
    (c >= 48 && c <= 57) || (c >= 97 && c <= 122) || (c >= 65 && c <= 90) || c == 44 || c == 46
        || c == 95 || c == 43 || c == 42 || c == 35 || c == 63 || c == 64 || c == 45
}

pub open spec fn spec_is_prop_node_char(c: u8) -> bool {
    ||| (48 <= c && c <= 57)
    ||| (97 <= c && c <= 122)
    ||| (65 <= c && c <= 90)
    ||| c == 44
    ||| c == 46
    ||| c == 95
    ||| c == 43
    ||| c == 42
    ||| c == 35
    ||| c == 63
    ||| c == 64
    ||| c == 45
}

/// Whether a byte may appear in a path: name characters plus `/`.
pub fn is_path_char(c: u8) -> (r: bool)
    ensures
        r == spec_is_path_char(c),
{
    is_prop_node_char(c) || c == 47
}

pub open spec fn spec_is_path_char(c: u8) -> bool {
    spec_is_prop_node_char(c) || c == 47
}

/// Whether a byte may appear in a label: ASCII alphanumeric or `_`.
pub fn is_label_char(c: u8) -> (r: bool)
    ensures
        r == spec_is_label_char(c),
{
    (c >= 48 && c <= 57) || (c >= 97 && c <= 122) || (c >= 65 && c <= 90) || c == 95
}

pub open spec fn spec_is_label_char(c: u8) -> bool {
    (48 <= c && c <= 57) || (97 <= c && c <= 122) || (65 <= c && c <= 90) || c == 95
}

/// Whether a byte may start a label: an ASCII letter or `_`.
pub fn is_label_start(c: u8) -> (r: bool)
    ensures
        r == spec_is_label_start(c),
{
    (c >= 97 && c <= 122) || (c >= 65 && c <= 90) || c == 95
}

pub open spec fn spec_is_label_start(c: u8) -> bool {
    (97 <= c && c <= 122) || (65 <= c && c <= 90) || c == 95
}

/// The value of one digit in the radix, if it is one.
fn digit_value(b: u8, radix: u64) -> (r: Option<u64>)
    requires
        2 <= radix <= 16,
    ensures
        match r {
            Option::Some(v) => digit_val(b) < radix as nat && v == digit_val(b),
            Option::None => digit_val(b) >= radix as nat,
        },
{
    let v: u64;
    if b >= 48 && b <= 57 {
        v = (b - 48) as u64;
    } else if b >= 97 && b <= 102 {
        v = (b - 87) as u64;
    } else if b >= 65 && b <= 70 {
        v = (b - 55) as u64;
    } else {
        return Option::None;
    }
    if v < radix {
        Option::Some(v)
    } else {
        Option::None
    }
}

/// Reads a whole digit run in the given radix; `None` on an empty or
/// malformed run, or when the value exceeds `u64`.
fn parse_radix(s: &[u8], radix: u64) -> (r: Option<u64>)
    requires
        2 <= radix <= 16,
    ensures
        match r {
            Option::Some(v) => s@.len() > 0 && digits_ok(s@, radix as nat) && digits_val(
                s@,
                radix as nat,
            ) <= u64::MAX && v == digits_val(s@, radix as nat),
            Option::None => s@.len() == 0 || !digits_ok(s@, radix as nat) || digits_val(
                s@,
                radix as nat,
            ) > u64::MAX,
        },
{
    if s.len() == 0 {
        return Option::None;
    }
    let mut acc: u64 = 0;
    let mut i: usize = 0;
    while i < s.len()
        invariant
            2 <= radix <= 16,
            i <= s@.len(),
            digits_ok(s@.take(i as int), radix as nat),
            acc == digits_val(s@.take(i as int), radix as nat),
        decreases s@.len() - i,
    {
        let ghost pre = s@.take(i as int);
        let d = match digit_value(s[i], radix) {
            Option::Some(d) => d,
            Option::None => {
                assert(!digits_ok(s@, radix as nat)) by {
                    assert(digit_val(s@[i as int]) >= radix as nat);
                }
                return Option::None;
            },
        };
        proof {
            assert(s@.take(i + 1).drop_last() =~= pre);
            assert(s@.take(i + 1).last() == s@[i as int]);
        }
        if acc > (u64::MAX - d) / radix {
            proof {
                let m = (u64::MAX - d) as int;
                lemma_fundamental_div_mod(m, radix as int);
                let q = m / radix as int;
                let rem = m % radix as int;
                assert(acc * radix + d > u64::MAX) by (nonlinear_arith)
                    requires
                        acc >= q + 1,
                        m == radix as int * q + rem,
                        0 <= rem && rem < radix as int,
                        m == u64::MAX - d,
                        radix >= 2,
                ;
                assert(digits_val(s@.take(i + 1), radix as nat) > u64::MAX);
                lemma_digits_prefix_le(s@, i + 1, radix as nat);
            }
            return Option::None;
        }
        proof {
            let m = (u64::MAX - d) as int;
            lemma_fundamental_div_mod(m, radix as int);
            assert(acc * radix + d <= u64::MAX) by (nonlinear_arith)
                requires
                    acc <= m / (radix as int),
                    m == radix as int * (m / (radix as int)) + (m % (radix as int)),
                    0 <= m % (radix as int) && m % (radix as int) < radix as int,
                    m == u64::MAX - d,
                    radix >= 2,
            ;
        }
        acc = acc * radix + d;
        i += 1;
    }
    proof {
        assert(s@.take(s@.len() as int) =~= s@);
    }
    Option::Some(acc)
}

/// Reads a hexadecimal digit run into a `u64`.
pub fn from_str_hex(s: &[u8]) -> (r: Option<u64>)
    ensures
        match r {
            Option::Some(v) => s@.len() > 0 && digits_ok(s@, 16) && digits_val(s@, 16)
                <= u64::MAX && v == digits_val(s@, 16),
            Option::None => s@.len() == 0 || !digits_ok(s@, 16) || digits_val(s@, 16) > u64::MAX,
        },
{
    parse_radix(s, 16)
}

/// Reads an octal digit run into a `u64`.
pub fn from_str_oct(s: &[u8]) -> (r: Option<u64>)
    ensures
        match r {
            Option::Some(v) => s@.len() > 0 && digits_ok(s@, 8) && digits_val(s@, 8) <= u64::MAX
                && v == digits_val(s@, 8),
            Option::None => s@.len() == 0 || !digits_ok(s@, 8) || digits_val(s@, 8) > u64::MAX,
        },
{
    parse_radix(s, 8)
}

/// Reads a decimal digit run into a `u64`.
pub fn from_str_dec(s: &[u8]) -> (r: Option<u64>)
    ensures
        match r {
            Option::Some(v) => s@.len() > 0 && digits_ok(s@, 10) && digits_val(s@, 10)
                <= u64::MAX && v == digits_val(s@, 10),
            Option::None => s@.len() == 0 || !digits_ok(s@, 10) || digits_val(s@, 10) > u64::MAX,
        },
{
    parse_radix(s, 10)
}

/// ASCII whitespace recognized between tokens.
pub open spec fn spec_is_ws(b: u8) -> bool {
    b == 32 || b == 9 || b == 13 || b == 10
}

/// The position of the first `*/` at or after `j`, if any.
pub open spec fn spec_find_close(s: Seq<u8>, j: int) -> Option<int>
    decreases s.len() - j,
    when 0 <= j <= s.len()
{
    if j + 1 >= s.len() {
        Option::None
    } else if s[j] == 42 && s[j + 1] == 47 {
        Option::Some(j)
    } else {
        spec_find_close(s, j + 1)
    }
}

pub proof fn lemma_find_close_props(s: Seq<u8>, j: int)
    requires
        0 <= j <= s.len(),
        spec_find_close(s, j) is Some,
    ensures
        j <= spec_find_close(s, j)->Some_0,
        spec_find_close(s, j)->Some_0 + 1 < s.len(),
    decreases s.len() - j,
{
    if j + 1 >= s.len() {
    } else if s[j] == 42 && s[j + 1] == 47 {
    } else {
        lemma_find_close_props(s, j + 1);
    }
}

/// The position of the first line-ending byte at or after `j`, if any.
pub open spec fn spec_find_eol(s: Seq<u8>, j: int) -> Option<int>
    decreases s.len() - j,
    when 0 <= j <= s.len()
{
    if j >= s.len() {
        Option::None
    } else if s[j] == 10 || s[j] == 13 {
        Option::Some(j)
    } else {
        spec_find_eol(s, j + 1)
    }
}

pub proof fn lemma_find_eol_props(s: Seq<u8>, j: int)
    requires
        0 <= j <= s.len(),
        spec_find_eol(s, j) is Some,
    ensures
        j <= spec_find_eol(s, j)->Some_0,
        spec_find_eol(s, j)->Some_0 < s.len(),
    decreases s.len() - j,
{
    if j >= s.len() {
    } else if s[j] == 10 || s[j] == 13 {
    } else {
        lemma_find_eol_props(s, j + 1);
    }
}

/// Where the lexical skip ends: past every run of whitespace, `/* */` block
/// comment (terminated by the first `*/`) and `// ...` line comment
/// (terminated by a line ending) starting at `pos`.  An unterminated
/// comment is not consumed.
pub open spec fn spec_skip(s: Seq<u8>, pos: int) -> int
    decreases s.len() - pos,
    when 0 <= pos <= s.len()
    via spec_skip_dec
{
    if pos >= s.len() {
        pos
    } else if pos + 1 < s.len() && s[pos] == 47 && s[pos + 1] == 42 {
        match spec_find_close(s, pos + 2) {
            Option::Some(c) => spec_skip(s, c + 2),
            Option::None => pos,
        }
    } else if pos + 1 < s.len() && s[pos] == 47 && s[pos + 1] == 47 {
        match spec_find_eol(s, pos + 2) {
            Option::Some(e) => if s[e] == 10 {
                spec_skip(s, e + 1)
            } else if e + 1 < s.len() && s[e + 1] == 10 {
                spec_skip(s, e + 2)
            } else {
                pos
            },
            Option::None => pos,
        }
    } else if spec_is_ws(s[pos]) {
        spec_skip(s, pos + 1)
    } else {
        pos
    }
}

#[via_fn]
proof fn spec_skip_dec(s: Seq<u8>, pos: int) {
    if 0 <= pos && pos < s.len() {
        if pos + 1 < s.len() && s[pos] == 47 && s[pos + 1] == 42 {
            if spec_find_close(s, pos + 2) is Some {
                lemma_find_close_props(s, pos + 2);
            }
        } else if pos + 1 < s.len() && s[pos] == 47 && s[pos + 1] == 47 {
            if spec_find_eol(s, pos + 2) is Some {
                lemma_find_eol_props(s, pos + 2);
            }
        }
    }
}

pub proof fn lemma_skip_range(s: Seq<u8>, pos: int)
    requires
        0 <= pos <= s.len(),
    ensures
        pos <= spec_skip(s, pos) <= s.len(),
    decreases s.len() - pos,
{
    if pos >= s.len() {
    } else if pos + 1 < s.len() && s[pos] == 47 && s[pos + 1] == 42 {
        if spec_find_close(s, pos + 2) is Some {
            lemma_find_close_props(s, pos + 2);
            lemma_skip_range(s, spec_find_close(s, pos + 2)->Some_0 + 2);
        }
    } else if pos + 1 < s.len() && s[pos] == 47 && s[pos + 1] == 47 {
        if spec_find_eol(s, pos + 2) is Some {
            lemma_find_eol_props(s, pos + 2);
            let e = spec_find_eol(s, pos + 2)->Some_0;
            if s[e] == 10 {
                lemma_skip_range(s, e + 1);
            } else if e + 1 < s.len() && s[e + 1] == 10 {
                lemma_skip_range(s, e + 2);
            }
        }
    } else if spec_is_ws(s[pos]) {
        lemma_skip_range(s, pos + 1);
    }
}

/// Comment transparency at the lexical level: a terminated block comment is
/// consumed exactly like whitespace, so inserting one at a skip point does
/// not change where the skip ends.
pub proof fn lemma_skip_block_comment(s: Seq<u8>, pos: int)
    requires
        0 <= pos,
        pos + 1 < s.len(),
        s[pos] == 47,
        s[pos + 1] == 42,
        spec_find_close(s, pos + 2) is Some,
    ensures
        spec_skip(s, pos) == spec_skip(s, spec_find_close(s, pos + 2)->Some_0 + 2),
{
    lemma_find_close_props(s, pos + 2);
}

/// Comment transparency for line comments: one terminated by a bare line
/// feed is consumed exactly like whitespace.
pub proof fn lemma_skip_line_comment(s: Seq<u8>, pos: int)
    requires
        0 <= pos,
        pos + 1 < s.len(),
        s[pos] == 47,
        s[pos + 1] == 47,
        spec_find_eol(s, pos + 2) is Some,
        s[spec_find_eol(s, pos + 2)->Some_0] == 10,
    ensures
        spec_skip(s, pos) == spec_skip(s, spec_find_eol(s, pos + 2)->Some_0 + 1),
{
    lemma_find_eol_props(s, pos + 2);
}

fn find_close(input: &[u8], j: usize) -> (r: Option<usize>)
    requires
        j <= input@.len(),
    ensures
        match r {
            Option::Some(c) => spec_find_close(input@, j as int) == Option::Some(c as int) && j
                <= c && c + 1 < input@.len(),
            Option::None => spec_find_close(input@, j as int) is None,
        },
{
    let mut cur = j;
    while cur < input.len() && cur + 1 < input.len()
        invariant
            j <= cur,
            cur <= input@.len(),
            spec_find_close(input@, j as int) == spec_find_close(input@, cur as int),
        decreases input@.len() - cur,
    {
        if input[cur] == 42 && input[cur + 1] == 47 {
            return Option::Some(cur);
        }
        cur += 1;
    }
    Option::None
}

fn find_eol(input: &[u8], j: usize) -> (r: Option<usize>)
    requires
        j <= input@.len(),
    ensures
        match r {
            Option::Some(e) => spec_find_eol(input@, j as int) == Option::Some(e as int) && j <= e
                && e < input@.len() && (input@[e as int] == 10 || input@[e as int] == 13),
            Option::None => spec_find_eol(input@, j as int) is None,
        },
{
    let mut cur = j;
    while cur < input.len()
        invariant
            j <= cur,
            cur <= input@.len(),
            spec_find_eol(input@, j as int) == spec_find_eol(input@, cur as int),
        decreases input@.len() - cur,
    {
        if input[cur] == 10 || input[cur] == 13 {
            return Option::Some(cur);
        }
        cur += 1;
    }
    Option::None
}

/// Consumes whitespace and comments; applied between every pair of tokens.
/// It never fails and never moves backwards.
pub fn eat_junk(input: &[u8], pos: usize) -> (r: usize)
    requires
        pos <= input@.len(),
    ensures
        r == spec_skip(input@, pos as int),
        pos <= r <= input@.len(),
    decreases input@.len() - pos,
{
    proof {
        lemma_skip_range(input@, pos as int);
    }
    if pos >= input.len() {
        return pos;
    }
    if pos + 1 < input.len() && input[pos] == 47 && input[pos + 1] == 42 {
        match find_close(input, pos + 2) {
            Option::Some(c) => {
                return eat_junk(input, c + 2);
            },
            Option::None => {
                return pos;
            },
        }
    }
    if pos + 1 < input.len() && input[pos] == 47 && input[pos + 1] == 47 {
        match find_eol(input, pos + 2) {
            Option::Some(e) => {
                if input[e] == 10 {
                    return eat_junk(input, e + 1);
                }
                if e + 1 < input.len() && input[e + 1] == 10 {
                    return eat_junk(input, e + 2);
                }
                return pos;
            },
            Option::None => {
                return pos;
            },
        }
    }
    let b = input[pos];
    if b == 32 || b == 9 || b == 13 || b == 10 {
        return eat_junk(input, pos + 1);
    }
    pos
}

/// Recognizes a label: a letter or `_`, then letters, digits and `_`.
/// On success the returned bytes are exactly the consumed run, which is
/// maximal.
pub fn parse_label(input: &[u8], pos: usize) -> (r: Result<(Vec<u8>, usize), ParseError>)
    requires
        pos <= input@.len(),
    ensures
        match r {
            Result::Ok(p) => {
                &&& pos < p.1 <= input@.len()
                &&& p.0@ == input@.subrange(pos as int, p.1 as int)
                &&& spec_is_label_start(input@[pos as int])
                &&& forall|k: int| pos < k < p.1 ==> spec_is_label_char(#[trigger] input@[k])
                &&& (p.1 == input@.len() || !spec_is_label_char(input@[p.1 as int]))
            },
            Result::Err(e) => e is Syntax && (pos >= input@.len() || !spec_is_label_start(
                input@[pos as int],
            )),
        },
{
    if pos >= input.len() || !is_label_start(input[pos]) {
        return Result::Err(ParseError::Syntax(pos));
    }
    let mut end = pos + 1;
    while end < input.len() && is_label_char(input[end])
        invariant
            pos < end <= input@.len(),
            forall|k: int| pos < k < end ==> spec_is_label_char(#[trigger] input@[k]),
        decreases input@.len() - end,
    {
        end += 1;
    }
    let lab = crate::bytes::copy_range(input, pos, end);
    Result::Ok((lab, end))
}

/// The end of the digit run of the radix starting at `j`.
pub open spec fn run_end(s: Seq<u8>, j: int, radix: nat) -> int
    decreases s.len() - j,
    when 0 <= j <= s.len()
{
    if j < s.len() && digit_val(s[j]) < radix {
        run_end(s, j + 1, radix)
    } else {
        j
    }
}

pub proof fn lemma_run_end_props(s: Seq<u8>, j: int, radix: nat)
    requires
        0 <= j <= s.len(),
    ensures
        j <= run_end(s, j, radix) <= s.len(),
        forall|k: int| j <= k < run_end(s, j, radix) ==> digit_val(#[trigger] s[k]) < radix,
        run_end(s, j, radix) == s.len() || digit_val(s[run_end(s, j, radix)]) >= radix,
    decreases s.len() - j,
{
    if j < s.len() && digit_val(s[j]) < radix {
        lemma_run_end_props(s, j + 1, radix);
    }
}

fn scan_run(input: &[u8], j: usize, radix: u64) -> (e: usize)
    requires
        j <= input@.len(),
        2 <= radix <= 16,
    ensures
        e == run_end(input@, j as int, radix as nat),
        j <= e <= input@.len(),
    decreases input@.len() - j,
{
    proof {
        lemma_run_end_props(input@, j as int, radix as nat);
    }
    if j < input.len() {
        match digit_value(input[j], radix) {
            Option::Some(d) => {
                return scan_run(input, j + 1, radix);
            },
            Option::None => {
                return j;
            },
        }
    }
    j
}

/// Where a numeric literal at `pos` ends and what it denotes: a `0x`/`0X`
/// prefix over hex digits, an octal `0` prefix (a bare `0` is octal zero),
/// or plain decimal, in that priority order.
pub open spec fn spec_num(s: Seq<u8>, pos: int) -> Option<(nat, int)> {
    if pos < s.len() && s[pos] == 48 && pos + 1 < s.len() && (s[pos + 1] == 120 || s[pos + 1]
        == 88) {
        let e = run_end(s, pos + 2, 16);
        if e == pos + 2 {
            Option::None
        } else {
            Option::Some((digits_val(s.subrange(pos + 2, e), 16), e))
        }
    } else if pos < s.len() && s[pos] == 48 {
        let e = run_end(s, pos + 1, 8);
        Option::Some((digits_val(s.subrange(pos + 1, e), 8), e))
    } else if pos < s.len() && digit_val(s[pos]) < 10 {
        let e = run_end(s, pos, 10);
        Option::Some((digits_val(s.subrange(pos, e), 10), e))
    } else {
        Option::None
    }
}

/// Reads a numeric literal; overflow beyond `u64` is a distinct failure.
pub fn num_u64(input: &[u8], pos: usize) -> (r: Result<(u64, usize), ParseError>)
    requires
        pos <= input@.len(),
    ensures
        match r {
            Result::Ok(p) => spec_num(input@, pos as int) == Option::Some(
                (p.0 as nat, p.1 as int),
            ) && pos < p.1 <= input@.len(),
            Result::Err(e) => (e is Syntax && spec_num(input@, pos as int) is None) || (e
                is NumericOverflow && spec_num(input@, pos as int) is Some && spec_num(
                input@,
                pos as int,
            )->Some_0.0 > u64::MAX),
        },
{
    if pos < input.len() && input[pos] == 48 && pos + 1 < input.len() && (input[pos + 1] == 120
        || input[pos + 1] == 88) {
        let e = scan_run(input, pos + 2, 16);
        if e == pos + 2 {
            return Result::Err(ParseError::Syntax(pos));
        }
        proof {
            lemma_run_end_props(input@, pos + 2, 16);
        }
        match from_str_hex(&input[pos + 2..e]) {
            Option::Some(v) => Result::Ok((v, e)),
            Option::None => {
                proof {
                    assert(digits_ok(input@.subrange(pos + 2, e as int), 16));
                }
                Result::Err(ParseError::NumericOverflow(pos))
            },
        }
    } else if pos < input.len() && input[pos] == 48 {
        let e = scan_run(input, pos + 1, 8);
        proof {
            lemma_run_end_props(input@, pos + 1, 8);
        }
        if e == pos + 1 {
            proof {
                assert(input@.subrange(pos + 1, e as int) =~= Seq::<u8>::empty());
            }
            return Result::Ok((0, pos + 1));
        }
        match from_str_oct(&input[pos + 1..e]) {
            Option::Some(v) => Result::Ok((v, e)),
            Option::None => {
                proof {
                    assert(digits_ok(input@.subrange(pos + 1, e as int), 8));
                }
                Result::Err(ParseError::NumericOverflow(pos))
            },
        }
    } else if pos < input.len() && input[pos] >= 48 && input[pos] <= 57 {
        let e = scan_run(input, pos, 10);
        proof {
            lemma_run_end_props(input@, pos as int, 10);
            assert(digit_val(input@[pos as int]) < 10);
        }
        match from_str_dec(&input[pos..e]) {
            Option::Some(v) => Result::Ok((v, e)),
            Option::None => {
                proof {
                    assert(digits_ok(input@.subrange(pos as int, e as int), 10));
                }
                Result::Err(ParseError::NumericOverflow(pos))
            },
        }
    } else {
        proof {
            if pos < input@.len() {
                assert(digit_val(input@[pos as int]) >= 10 || input@[pos as int] == 48);
            }
        }
        Result::Err(ParseError::Syntax(pos))
    }
}

/// Reads a numeric literal into a `u32`: a value beyond the 32-bit width
/// is a `NumericOverflow` failure.
pub fn num_u32(input: &[u8], pos: usize) -> (r: Result<(u32, usize), ParseError>)
    requires
        pos <= input@.len(),
    ensures
        match r {
            Result::Ok(p) => spec_num(input@, pos as int) == Option::Some(
                (p.0 as nat, p.1 as int),
            ) && pos < p.1 <= input@.len(),
            Result::Err(e) => (e is Syntax && spec_num(input@, pos as int) is None) || (e
                is NumericOverflow && spec_num(input@, pos as int) is Some && spec_num(
                input@,
                pos as int,
            )->Some_0.0 > u32::MAX),
        },
{
    match num_u64(input, pos) {
        Result::Ok(ne) => {
            if ne.0 > 0xffff_ffff {
                Result::Err(ParseError::NumericOverflow(pos))
            } else {
                Result::Ok((ne.0 as u32, ne.1))
            }
        },
        Result::Err(e) => Result::Err(e),
    }
}

/// Reads a numeric literal into a `u16`: a value beyond the 16-bit width
/// is a `NumericOverflow` failure.
pub fn num_u16(input: &[u8], pos: usize) -> (r: Result<(u16, usize), ParseError>)
    requires
        pos <= input@.len(),
    ensures
        match r {
            Result::Ok(p) => spec_num(input@, pos as int) == Option::Some(
                (p.0 as nat, p.1 as int),
            ) && pos < p.1 <= input@.len(),
            Result::Err(e) => (e is Syntax && spec_num(input@, pos as int) is None) || (e
                is NumericOverflow && spec_num(input@, pos as int) is Some && spec_num(
                input@,
                pos as int,
            )->Some_0.0 > u16::MAX),
        },
{
    match num_u64(input, pos) {
        Result::Ok(ne) => {
            if ne.0 > 0xffff {
                Result::Err(ParseError::NumericOverflow(pos))
            } else {
                Result::Ok((ne.0 as u16, ne.1))
            }
        },
        Result::Err(e) => Result::Err(e),
    }
}

/// Reads a numeric literal into a `u8`: a value beyond the 8-bit width is
/// a `NumericOverflow` failure.
pub fn num_u8(input: &[u8], pos: usize) -> (r: Result<(u8, usize), ParseError>)
    requires
        pos <= input@.len(),
    ensures
        match r {
            Result::Ok(p) => spec_num(input@, pos as int) == Option::Some(
                (p.0 as nat, p.1 as int),
            ) && pos < p.1 <= input@.len(),
            Result::Err(e) => (e is Syntax && spec_num(input@, pos as int) is None) || (e
                is NumericOverflow && spec_num(input@, pos as int) is Some && spec_num(
                input@,
                pos as int,
            )->Some_0.0 > u8::MAX),
        },
{
    match num_u64(input, pos) {
        Result::Ok(ne) => {
            if ne.0 > 0xff {
                Result::Err(ParseError::NumericOverflow(pos))
            } else {
                Result::Ok((ne.0 as u8, ne.1))
            }
        },
        Result::Err(e) => Result::Err(e),
    }
}

/// What one escape sequence denotes (the position is just after the
/// backslash): a named single-byte escape, `\xHH..` hex (at most 0x7F), or
/// octal digits (at most 0xFF).
pub open spec fn spec_escape(s: Seq<u8>, pos: int) -> Option<(u8, int)> {
    if pos >= s.len() {
        Option::None
    } else {
        let c = s[pos];
        if c == 97 {
            Option::Some((7u8, pos + 1))
        } else if c == 98 {
            Option::Some((8u8, pos + 1))
        } else if c == 116 {
            Option::Some((9u8, pos + 1))
        } else if c == 110 {
            Option::Some((10u8, pos + 1))
        } else if c == 118 {
            Option::Some((11u8, pos + 1))
        } else if c == 102 {
            Option::Some((12u8, pos + 1))
        } else if c == 114 {
            Option::Some((13u8, pos + 1))
        } else if c == 92 {
            Option::Some((92u8, pos + 1))
        } else if c == 34 {
            Option::Some((34u8, pos + 1))
        } else if c == 120 || c == 88 {
            let e = run_end(s, pos + 1, 16);
            if e == pos + 1 || digits_val(s.subrange(pos + 1, e), 16) > 127 {
                Option::None
            } else {
                Option::Some((digits_val(s.subrange(pos + 1, e), 16) as u8, e))
            }
        } else {
            let e = run_end(s, pos, 8);
            if e == pos || digits_val(s.subrange(pos, e), 8) > 255 {
                Option::None
            } else {
                Option::Some((digits_val(s.subrange(pos, e), 8) as u8, e))
            }
        }
    }
}

pub proof fn lemma_escape_props(s: Seq<u8>, pos: int)
    requires
        0 <= pos <= s.len(),
        spec_escape(s, pos) is Some,
    ensures
        pos < spec_escape(s, pos)->Some_0.1 <= s.len(),
{
    let c = s[pos];
    if c == 120 || c == 88 {
        lemma_run_end_props(s, pos + 1, 16);
    } else if !(c == 97 || c == 98 || c == 116 || c == 110 || c == 118 || c == 102 || c == 114
        || c == 92 || c == 34) {
        lemma_run_end_props(s, pos, 8);
    }
}

/// The decoded bytes of a string body from `pos` up to (excluding) the
/// closing quote, and the position of that quote.
pub open spec fn spec_string_body(s: Seq<u8>, pos: int) -> Option<(Seq<u8>, int)>
    decreases s.len() - pos,
    when 0 <= pos <= s.len()
    via spec_string_body_dec
{
    if pos >= s.len() {
        Option::None
    } else if s[pos] == 34 {
        Option::Some((Seq::empty(), pos))
    } else if s[pos] == 92 {
        match spec_escape(s, pos + 1) {
            Option::None => Option::None,
            Option::Some(be) => match spec_string_body(s, be.1) {
                Option::None => Option::None,
                Option::Some(re) => Option::Some((seq![be.0] + re.0, re.1)),
            },
        }
    } else {
        match spec_string_body(s, pos + 1) {
            Option::None => Option::None,
            Option::Some(re) => Option::Some((seq![s[pos]] + re.0, re.1)),
        }
    }
}

#[via_fn]
proof fn spec_string_body_dec(s: Seq<u8>, pos: int) {
    if 0 <= pos && pos < s.len() && s[pos] == 92 {
        if spec_escape(s, pos + 1) is Some {
            lemma_escape_props(s, pos + 1);
        }
    }
}

/// Reads one escape sequence (called with `pos` just after the backslash).
fn parse_escape(input: &[u8], pos: usize) -> (r: Result<(u8, usize), ParseError>)
    requires
        pos <= input@.len(),
    ensures
        match r {
            Result::Ok(p) => spec_escape(input@, pos as int) == Option::Some(
                (p.0, p.1 as int),
            ) && pos < p.1 <= input@.len(),
            Result::Err(e) => spec_escape(input@, pos as int) is None && (e is EscapeOutOfRange
                ==> pos < input@.len() && (input@[pos as int] == 120 || input@[pos as int]
                == 88) && digits_val(
                input@.subrange(pos + 1, run_end(input@, pos + 1, 16)),
                16,
            ) > 127),
        },
{
    if pos >= input.len() {
        return Result::Err(ParseError::Syntax(pos));
    }
    let c = input[pos];
    if c == 97 {
        Result::Ok((7, pos + 1))
    } else if c == 98 {
        Result::Ok((8, pos + 1))
    } else if c == 116 {
        Result::Ok((9, pos + 1))
    } else if c == 110 {
        Result::Ok((10, pos + 1))
    } else if c == 118 {
        Result::Ok((11, pos + 1))
    } else if c == 102 {
        Result::Ok((12, pos + 1))
    } else if c == 114 {
        Result::Ok((13, pos + 1))
    } else if c == 92 {
        Result::Ok((92, pos + 1))
    } else if c == 34 {
        Result::Ok((34, pos + 1))
    } else if c == 120 || c == 88 {
        let e = scan_run(input, pos + 1, 16);
        proof {
            lemma_run_end_props(input@, pos + 1, 16);
        }
        if e == pos + 1 {
            return Result::Err(ParseError::Syntax(pos));
        }
        match from_str_hex(&input[pos + 1..e]) {
            Option::Some(v) => {
                if v > 127 {
                    Result::Err(ParseError::EscapeOutOfRange(pos))
                } else {
                    Result::Ok((v as u8, e))
                }
            },
            Option::None => {
                proof {
                    assert(digits_ok(input@.subrange(pos + 1, e as int), 16));
                }
                Result::Err(ParseError::EscapeOutOfRange(pos))
            },
        }
    } else {
        let e = scan_run(input, pos, 8);
        proof {
            lemma_run_end_props(input@, pos as int, 8);
        }
        if e == pos {
            return Result::Err(ParseError::Syntax(pos));
        }
        match from_str_oct(&input[pos..e]) {
            Option::Some(v) => {
                if v > 255 {
                    Result::Err(ParseError::NumericOverflow(pos))
                } else {
                    Result::Ok((v as u8, e))
                }
            },
            Option::None => {
                proof {
                    assert(digits_ok(input@.subrange(pos as int, e as int), 8));
                }
                Result::Err(ParseError::NumericOverflow(pos))
            },
        }
    }
}

/// Decodes a string body (called with `pos` just after the opening quote)
/// up to the closing quote; the returned position is just after that quote.
pub fn escape_c_string(input: &[u8], pos: usize) -> (r: Result<(Vec<u8>, usize), ParseError>)
    requires
        pos <= input@.len(),
    ensures
        match r {
            Result::Ok(p) => {
                &&& spec_string_body(input@, pos as int) == Option::Some((p.0@, p.1 - 1 as int))
                &&& pos < p.1 <= input@.len()
                &&& input@[p.1 - 1] == 34
            },
            Result::Err(e) => spec_string_body(input@, pos as int) is None && (e
                is EscapeOutOfRange ==> exists|k: int|
                pos <= k && k + 1 < input@.len() && input@[k] == 92 && (#[trigger] input@[k + 1]
                    == 120 || input@[k + 1] == 88) && spec_escape(input@, k + 1) is None),
        },
{
    let mut out: Vec<u8> = Vec::new();
    let mut cur = pos;
    loop
        invariant
            pos <= cur <= input@.len(),
            spec_string_body(input@, pos as int) == (match spec_string_body(input@, cur as int) {
                Option::None => Option::None::<(Seq<u8>, int)>,
                Option::Some(re) => Option::Some((out@ + re.0, re.1)),
            }),
        decreases input@.len() - cur,
    {
        if cur >= input.len() {
            return Result::Err(ParseError::Syntax(cur));
        }
        let b = input[cur];
        if b == 34 {
            proof {
                assert(out@ + Seq::<u8>::empty() =~= out@);
            }
            return Result::Ok((out, cur + 1));
        }
        let ghost precur = cur as int;
        let ghost preout = out@;
        if b == 92 {
            match parse_escape(input, cur + 1) {
                Result::Ok(p) => {
                    out.push(p.0);
                    cur = p.1;
                    proof {
                        if spec_string_body(input@, cur as int) is Some {
                            assert(preout + (seq![p.0] + spec_string_body(
                                input@,
                                cur as int,
                            )->Some_0.0) =~= out@ + spec_string_body(input@, cur as int)->Some_0.0);
                        }
                    }
                },
                Result::Err(e) => {
                    proof {
                        if e is EscapeOutOfRange {
                            assert(pos <= cur as int && cur + 1 < input@.len()
                                && input@[cur as int] == 92 && (input@[cur + 1] == 120
                                || input@[cur + 1] == 88) && spec_escape(input@, cur + 1)
                                is None);
                        }
                    }
                    return Result::Err(e);
                },
            }
        } else {
            out.push(b);
            cur = cur + 1;
            proof {
                if spec_string_body(input@, cur as int) is Some {
                    assert(preout + (seq![b] + spec_string_body(input@, cur as int)->Some_0.0)
                        =~= out@ + spec_string_body(input@, cur as int)->Some_0.0);
                }
            }
        }
    }
}

pub proof fn lemma_children_wf_push(cs: Seq<Node>, c: Node)
    requires
        children_wf(cs),
        name_literal(c.name@),
        node_wf(c),
    ensures
        children_wf(cs.push(c)),
    decreases cs.len(),
{
    if cs.len() == 0 {
        assert(cs.push(c)[0] == c);
        assert(cs.push(c).drop_first() =~= Seq::<Node>::empty());
        assert(children_wf(Seq::<Node>::empty()));
    } else {
        assert(cs.push(c)[0] == cs[0]);
        assert(cs.push(c).drop_first() =~= cs.drop_first().push(c));
        lemma_children_wf_push(cs.drop_first(), c);
    }
}

/// The end of the maximal run of name characters starting at `pos`.
fn scan_name(input: &[u8], pos: usize) -> (e: usize)
    requires
        pos <= input@.len(),
    ensures
        pos <= e <= input@.len(),
        forall|k: int| pos <= k < e ==> spec_is_prop_node_char(#[trigger] input@[k]),
        e == input@.len() || !spec_is_prop_node_char(input@[e as int]),
    decreases input@.len() - pos,
{
    if pos < input.len() && is_prop_node_char(input[pos]) {
        scan_name(input, pos + 1)
    } else {
        pos
    }
}

/// The end of the maximal run of path characters starting at `pos`.
fn scan_path(input: &[u8], pos: usize) -> (e: usize)
    requires
        pos <= input@.len(),
    ensures
        pos <= e <= input@.len(),
        forall|k: int| pos <= k < e ==> spec_is_path_char(#[trigger] input@[k]),
        e == input@.len() || !spec_is_path_char(input@[e as int]),
    decreases input@.len() - pos,
{
    if pos < input.len() && is_path_char(input[pos]) {
        scan_path(input, pos + 1)
    } else {
        pos
    }
}

/// A maximal run of path characters ends exactly at `path_run_end`.
pub proof fn lemma_path_run(s: Seq<u8>, j: int, e: int)
    requires
        0 <= j <= e <= s.len(),
        forall|k: int| j <= k < e ==> spec_is_path_char(#[trigger] s[k]),
        e == s.len() || !spec_is_path_char(s[e]),
    ensures
        path_run_end(s, j) == e,
    decreases e - j,
{
    if j < e {
        lemma_path_run(s, j + 1, e);
    }
}

/// The end of the maximal run of label characters starting at `j`.
pub open spec fn label_run_end(s: Seq<u8>, j: int) -> int
    decreases s.len() - j,
    when 0 <= j <= s.len()
{
    if j < s.len() && spec_is_label_char(s[j]) {
        label_run_end(s, j + 1)
    } else {
        j
    }
}

/// A maximal run of label characters ends exactly at `label_run_end`.
pub proof fn lemma_label_run(s: Seq<u8>, j: int, e: int)
    requires
        0 <= j <= e <= s.len(),
        forall|k: int| j <= k < e ==> spec_is_label_char(#[trigger] s[k]),
        e == s.len() || !spec_is_label_char(s[e]),
    ensures
        label_run_end(s, j) == e,
    decreases e - j,
{
    if j < e {
        lemma_label_run(s, j + 1, e);
    }
}

/// The end of the maximal run of path characters starting at `j`.
pub open spec fn path_run_end(s: Seq<u8>, j: int) -> int
    decreases s.len() - j,
    when 0 <= j <= s.len()
{
    if j < s.len() && spec_is_path_char(s[j]) {
        path_run_end(s, j + 1)
    } else {
        j
    }
}

pub proof fn lemma_path_run_props(s: Seq<u8>, j: int)
    requires
        0 <= j <= s.len(),
    ensures
        j <= path_run_end(s, j) <= s.len(),
    decreases s.len() - j,
{
    if j < s.len() && spec_is_path_char(s[j]) {
        lemma_path_run_props(s, j + 1);
    }
}

/// What a reference at `pos` denotes: the label of `&label`, or the
/// absolute path of `&{/path}` (keeping its leading `/`), and the position
/// after it.
pub open spec fn spec_ref(s: Seq<u8>, pos: int) -> Option<(Seq<u8>, int)> {
    if pos < s.len() && s[pos] == AMP {
        if pos + 1 < s.len() && s[pos + 1] == 123 {
            let e = path_run_end(s, pos + 2);
            if e == pos + 2 {
                Option::None
            } else if e < s.len() && s[e] == 125 {
                Option::Some((s.subrange(pos + 2, e), e + 1))
            } else {
                Option::None
            }
        } else if pos + 1 < s.len() && spec_is_label_start(s[pos + 1]) {
            Option::Some((s.subrange(pos + 1, label_run_end(s, pos + 2)), label_run_end(
                s,
                pos + 2,
            )))
        } else {
            Option::None
        }
    } else {
        Option::None
    }
}

pub proof fn lemma_ref_props(s: Seq<u8>, pos: int)
    requires
        0 <= pos <= s.len(),
        spec_ref(s, pos) is Some,
    ensures
        pos < spec_ref(s, pos)->Some_0.1 <= s.len(),
{
    if pos + 1 < s.len() && s[pos + 1] == 123 {
        lemma_path_run_props(s, pos + 2);
    } else {
        assert(pos + 1 < s.len() && spec_is_label_start(s[pos + 1]));
        lemma_label_run_lb(s, pos + 2);
    }
}

pub proof fn lemma_label_run_lb(s: Seq<u8>, j: int)
    requires
        0 <= j <= s.len(),
    ensures
        j <= label_run_end(s, j) <= s.len(),
    decreases s.len() - j,
{
    if j < s.len() && spec_is_label_char(s[j]) {
        lemma_label_run_lb(s, j + 1);
    }
}

pub proof fn lemma_num_props(s: Seq<u8>, pos: int)
    requires
        0 <= pos <= s.len(),
        spec_num(s, pos) is Some,
    ensures
        pos < spec_num(s, pos)->Some_0.1 <= s.len(),
{
    if pos < s.len() && s[pos] == 48 && pos + 1 < s.len() && (s[pos + 1] == 120 || s[pos + 1]
        == 88) {
        lemma_run_end_props(s, pos + 2, 16);
    } else if pos < s.len() && s[pos] == 48 {
        lemma_run_end_props(s, pos + 1, 8);
    } else {
        lemma_run_end_props(s, pos, 10);
    }
}

/// Whether the bytes at `pos` equal the pattern.
fn match_at(input: &[u8], pos: usize, pat: &[u8]) -> (r: bool)
    requires
        pos <= input@.len(),
    ensures
        r == (pos + pat@.len() <= input@.len() && input@.subrange(
            pos as int,
            pos + pat@.len(),
        ) == pat@),
{
    if pat.len() > input.len() - pos {
        return false;
    }
    let mut i: usize = 0;
    while i < pat.len()
        invariant
            i <= pat@.len(),
            pos + pat@.len() <= input@.len(),
            input@.len() <= usize::MAX,
            forall|k: int| 0 <= k < i ==> input@[pos + k] == pat@[k],
        decreases pat@.len() - i,
    {
        proof {
            assert(pos + i < input@.len());
        }
        if input[pos + i] != pat[i] {
            assert(input@.subrange(pos as int, pos + pat@.len())[i as int] != pat@[i as int]);
            return false;
        }
        i += 1;
    }
    proof {
        assert(input@.subrange(pos as int, pos + pat@.len()) =~= pat@);
    }
    true
}

/// Recognizes a reference: `&label`, or `&{` absolute path `}`.  The
/// returned bytes are the label, or the path (which keeps its leading `/`).
pub fn parse_ref(input: &[u8], pos: usize) -> (r: Result<(Vec<u8>, usize), ParseError>)
    requires
        pos <= input@.len(),
    ensures
        match r {
            Result::Ok(p) => pos < p.1 <= input@.len() && input@[pos as int] == AMP && spec_ref(
                input@,
                pos as int,
            ) == Option::Some((p.0@, p.1 as int)),
            Result::Err(e) => spec_ref(input@, pos as int) is None && e is Syntax,
        },
{
    if pos >= input.len() || input[pos] != AMP {
        return Result::Err(ParseError::Syntax(pos));
    }
    if pos + 1 < input.len() && input[pos + 1] == 123 {
        let e = scan_path(input, pos + 2);
        proof {
            lemma_path_run(input@, pos + 2, e as int);
        }
        if e == pos + 2 {
            return Result::Err(ParseError::Syntax(pos + 2));
        }
        if e < input.len() && input[e] == 125 {
            let path = copy_range(input, pos + 2, e);
            Result::Ok((path, e + 1))
        } else {
            Result::Err(ParseError::Syntax(e))
        }
    } else {
        match parse_label(input, pos + 1) {
            Result::Ok(le) => {
                proof {
                    lemma_label_run(input@, pos + 2, le.1 as int);
                }
                Result::Ok((le.0, le.1))
            },
            Result::Err(_) => Result::Err(ParseError::Syntax(pos + 1)),
        }
    }
}

/// Reads one cell: a numeric literal, or a reference standing for a
/// deferred value (recorded with the placeholder 0).
pub fn parse_cell(input: &[u8], pos: usize) -> (r: Result<
    ((u64, Option<Vec<u8>>), usize),
    ParseError,
>)
    requires
        pos <= input@.len(),
    ensures
        match r {
            Result::Ok(p) => {
                &&& pos < p.1 <= input@.len()
                &&& (p.0.1 is Some <==> input@[pos as int] == AMP)
                &&& (p.0.1 is None ==> spec_num(input@, pos as int) == Option::Some(
                    (p.0.0 as nat, p.1 as int),
                ))
                &&& (p.0.1 is Some ==> p.0.0 == 0 && spec_ref(input@, pos as int)
                    == Option::Some((p.0.1->Some_0@, p.1 as int)))
            },
            Result::Err(e) => (e is Syntax || e is NumericOverflow) && (if pos < input@.len()
                && input@[pos as int] == AMP {
                spec_ref(input@, pos as int) is None
            } else {
                spec_num(input@, pos as int) is None || spec_num(
                    input@,
                    pos as int,
                )->Some_0.0 > u64::MAX
            }),
        },
{
    if pos < input.len() && input[pos] == AMP {
        match parse_ref(input, pos) {
            Result::Ok(re) => Result::Ok(((0, Option::Some(re.0)), re.1)),
            Result::Err(e) => Result::Err(e),
        }
    } else {
        match num_u64(input, pos) {
            Result::Ok(ne) => {
                proof {
                    if pos < input@.len() {
                        assert(input@[pos as int] != AMP) by {
                            if spec_num(input@, pos as int) is Some {
                                assert(digit_val(AMP) >= 10 && AMP != 48);
                            }
                        }
                    }
                }
                Result::Ok(((ne.0, Option::None), ne.1))
            },
            Result::Err(e) => Result::Err(e),
        }
    }
}

/// The cells of a `< ... >` list from `pos` (just after the `<`): numeric
/// literals and references with the lexical skip between them, ended by
/// `>`.  A reference cell carries the placeholder value 0.  The returned
/// position is just after the `>`.
pub open spec fn spec_cells(s: Seq<u8>, pos: int) -> Option<
    (Seq<(u64, Option<Seq<u8>>)>, int),
>
    decreases s.len() - pos,
    when 0 <= pos <= s.len()
    via spec_cells_dec
{
    let j = spec_skip(s, pos);
    if j < s.len() && s[j] == 62 {
        Option::Some((Seq::empty(), j + 1))
    } else if j < s.len() && s[j] == AMP {
        match spec_ref(s, j) {
            Option::None => Option::None,
            Option::Some(re) => match spec_cells(s, re.1) {
                Option::None => Option::None,
                Option::Some(ce) => Option::Some(
                    (seq![(0u64, Option::Some(re.0))] + ce.0, ce.1),
                ),
            },
        }
    } else {
        match spec_num(s, j) {
            Option::None => Option::None,
            Option::Some(ne) => if ne.0 > u64::MAX {
                Option::None
            } else {
                match spec_cells(s, ne.1) {
                    Option::None => Option::None,
                    Option::Some(ce) => Option::Some(
                        (seq![(ne.0 as u64, Option::None::<Seq<u8>>)] + ce.0, ce.1),
                    ),
                }
            },
        }
    }
}

#[via_fn]
proof fn spec_cells_dec(s: Seq<u8>, pos: int) {
    if 0 <= pos && pos <= s.len() {
        lemma_skip_range(s, pos);
        let j = spec_skip(s, pos);
        if j < s.len() && s[j] == 62 {
        } else if j < s.len() && s[j] == AMP {
            if spec_ref(s, j) is Some {
                lemma_ref_props(s, j);
            }
        } else {
            if spec_num(s, j) is Some {
                lemma_num_props(s, j);
            }
        }
    }
}

/// The decoded contents of a `[ ... ]` byte array from `pos` (just after
/// the `[`): hex pairs with the lexical skip between them, ended by `]`.
/// The returned position is just after the `]`.
pub open spec fn spec_bytes(s: Seq<u8>, pos: int) -> Option<(Seq<u8>, int)>
    decreases s.len() - pos,
    when 0 <= pos <= s.len()
    via spec_bytes_dec
{
    let j = spec_skip(s, pos);
    if j < s.len() && s[j] == 93 {
        Option::Some((Seq::empty(), j + 1))
    } else if j + 1 < s.len() && digit_val(s[j]) < 16 && digit_val(s[j + 1]) < 16 {
        match spec_bytes(s, j + 2) {
            Option::None => Option::None,
            Option::Some(re) => Option::Some(
                (seq![(digit_val(s[j]) * 16 + digit_val(s[j + 1])) as u8] + re.0, re.1),
            ),
        }
    } else {
        Option::None
    }
}

#[via_fn]
proof fn spec_bytes_dec(s: Seq<u8>, pos: int) {
    if 0 <= pos && pos <= s.len() {
        lemma_skip_range(s, pos);
    }
}

/// What one data item at `pos` denotes, after the lexical skip: a quoted
/// string, a non-empty `< ... >` cell list, a non-empty `[ ... ]` byte
/// array, or a bare reference — decided by the leading byte — and the
/// position after it.
pub open spec fn spec_data(s: Seq<u8>, pos: int) -> Option<(DataV, int)> {
    let j = spec_skip(s, pos);
    if j < s.len() && s[j] == 34 {
        match spec_string_body(s, j + 1) {
            Option::None => Option::None,
            Option::Some(se) => Option::Some((DataV::String(se.0), se.1 + 1)),
        }
    } else if j < s.len() && s[j] == 60 {
        match spec_cells(s, j + 1) {
            Option::None => Option::None,
            Option::Some(ce) => if ce.0.len() > 0 {
                Option::Some((DataV::Cells(ce.0), ce.1))
            } else {
                Option::None
            },
        }
    } else if j < s.len() && s[j] == 91 {
        match spec_bytes(s, j + 1) {
            Option::None => Option::None,
            Option::Some(be) => if be.0.len() > 0 {
                Option::Some((DataV::ByteArray(be.0), be.1))
            } else {
                Option::None
            },
        }
    } else if j < s.len() && s[j] == AMP {
        match spec_ref(s, j) {
            Option::None => Option::None,
            Option::Some(re) => Option::Some((DataV::Reference(re.0), re.1)),
        }
    } else {
        Option::None
    }
}

pub proof fn lemma_string_body_props(s: Seq<u8>, pos: int)
    requires
        0 <= pos <= s.len(),
        spec_string_body(s, pos) is Some,
    ensures
        pos <= spec_string_body(s, pos)->Some_0.1 < s.len(),
        s[spec_string_body(s, pos)->Some_0.1] == 34,
    decreases s.len() - pos,
{
    if pos < s.len() && s[pos] == 34 {
    } else if pos < s.len() && s[pos] == 92 {
        lemma_escape_props(s, pos + 1);
        lemma_string_body_props(s, spec_escape(s, pos + 1)->Some_0.1);
    } else {
        lemma_string_body_props(s, pos + 1);
    }
}

pub proof fn lemma_cells_props(s: Seq<u8>, pos: int)
    requires
        0 <= pos <= s.len(),
        spec_cells(s, pos) is Some,
    ensures
        pos < spec_cells(s, pos)->Some_0.1 <= s.len(),
    decreases s.len() - pos,
{
    lemma_skip_range(s, pos);
    let j = spec_skip(s, pos);
    if j < s.len() && s[j] == 62 {
    } else if j < s.len() && s[j] == AMP {
        lemma_ref_props(s, j);
        lemma_cells_props(s, spec_ref(s, j)->Some_0.1);
    } else {
        lemma_num_props(s, j);
        lemma_cells_props(s, spec_num(s, j)->Some_0.1);
    }
}

pub proof fn lemma_bytes_props(s: Seq<u8>, pos: int)
    requires
        0 <= pos <= s.len(),
        spec_bytes(s, pos) is Some,
    ensures
        pos < spec_bytes(s, pos)->Some_0.1 <= s.len(),
    decreases s.len() - pos,
{
    lemma_skip_range(s, pos);
    let j = spec_skip(s, pos);
    if j < s.len() && s[j] == 93 {
    } else {
        lemma_bytes_props(s, j + 2);
    }
}

pub proof fn lemma_data_props(s: Seq<u8>, pos: int)
    requires
        0 <= pos <= s.len(),
        spec_data(s, pos) is Some,
    ensures
        pos < spec_data(s, pos)->Some_0.1 <= s.len(),
{
    lemma_skip_range(s, pos);
    let j = spec_skip(s, pos);
    if j < s.len() && s[j] == 34 {
        lemma_string_body_props(s, j + 1);
    } else if j < s.len() && s[j] == 60 {
        lemma_cells_props(s, j + 1);
    } else if j < s.len() && s[j] == 91 {
        lemma_bytes_props(s, j + 1);
    } else {
        lemma_ref_props(s, j);
    }
}

/// The comma-separated, non-empty data list of a property value from
/// `pos`, and the position after it (with trailing junk consumed).
pub open spec fn spec_data_list(s: Seq<u8>, pos: int) -> Option<(Seq<DataV>, int)>
    decreases s.len() - pos,
    when 0 <= pos <= s.len()
    via spec_data_list_dec
{
    match spec_data(s, pos) {
        Option::None => Option::None,
        Option::Some(de) => {
            let j = spec_skip(s, de.1);
            if j < s.len() && s[j] == 44 {
                match spec_data_list(s, j + 1) {
                    Option::None => Option::None,
                    Option::Some(re) => Option::Some((seq![de.0] + re.0, re.1)),
                }
            } else {
                Option::Some((seq![de.0], j))
            }
        },
    }
}

#[via_fn]
proof fn spec_data_list_dec(s: Seq<u8>, pos: int) {
    if 0 <= pos && pos <= s.len() {
        if spec_data(s, pos) is Some {
            lemma_data_props(s, pos);
            lemma_skip_range(s, spec_data(s, pos)->Some_0.1);
        }
    }
}

/// Reads one data item after the lexical skip: a quoted string, a `< ... >`
/// cell list, a `[ ... ]` byte array, or a bare reference — the first that
/// matches, decided by the leading byte.
#[verifier::loop_isolation(false)]
pub fn parse_data(input: &[u8], pos: usize) -> (r: Result<(Data, usize), ParseError>)
    requires
        pos <= input@.len(),
    ensures
        match r {
            Result::Ok(p) => pos < p.1 <= input@.len() && spec_data(input@, pos as int)
                == Option::Some((data_view(p.0), p.1 as int)),
            Result::Err(e) => spec_data(input@, pos as int) is None && (e is EscapeOutOfRange
                ==> exists|k: int|
                pos <= k && k + 1 < input@.len() && input@[k] == 92 && (#[trigger] input@[k + 1]
                    == 120 || input@[k + 1] == 88) && spec_escape(input@, k + 1) is None),
        },
{
    let start = eat_junk(input, pos);
    if start >= input.len() {
        return Result::Err(ParseError::Syntax(start));
    }
    let b = input[start];
    if b == 34 {
        match escape_c_string(input, start + 1) {
            Result::Ok(se) => Result::Ok((Data::String(se.0), se.1)),
            Result::Err(e) => Result::Err(e),
        }
    } else if b == 60 {
        let mut cells: Vec<(u64, Option<Vec<u8>>)> = Vec::new();
        let mut cur = start + 1;
        loop
            invariant
                start + 1 <= cur <= input@.len(),
                spec_cells(input@, start + 1 as int) == (match spec_cells(input@, cur as int) {
                    Option::None => Option::None::<(Seq<(u64, Option<Seq<u8>>)>, int)>,
                    Option::Some(re) => Option::Some(
                        (
                            cells@.map_values(
                                |c: (u64, Option<Vec<u8>>)| crate::tree::cell_view(c),
                            ) + re.0,
                            re.1,
                        ),
                    ),
                }),
            decreases input@.len() - cur,
        {
            let ghost cv = |c: (u64, Option<Vec<u8>>)| crate::tree::cell_view(c);
            let j = eat_junk(input, cur);
            if j < input.len() && input[j] == 62 {
                if cells.len() == 0 {
                    proof {
                        assert(cells@.map_values(cv) + Seq::<(u64, Option<Seq<u8>>)>::empty()
                            =~= cells@.map_values(cv));
                        assert(spec_cells(input@, start + 1 as int)->Some_0.0.len() == 0);
                    }
                    return Result::Err(ParseError::Syntax(j));
                }
                proof {
                    assert(cells@.map_values(cv) + Seq::<(u64, Option<Seq<u8>>)>::empty()
                        =~= cells@.map_values(cv));
                }
                return Result::Ok((Data::Cells(cells), j + 1));
            }
            match parse_cell(input, j) {
                Result::Ok(ce) => {
                    let ghost precells = cells@;
                    let ghost item = ce.0;
                    cells.push(ce.0);
                    proof {
                        assert(crate::tree::cell_view(item) == (match item.1 {
                            Option::Some(rv) => (0u64, Option::Some(rv@)),
                            Option::None => (item.0, Option::None::<Seq<u8>>),
                        }));
                        if spec_cells(input@, ce.1 as int) is Some {
                            assert(precells.map_values(cv) + (seq![crate::tree::cell_view(item)]
                                + spec_cells(input@, ce.1 as int)->Some_0.0)
                                =~= cells@.map_values(cv) + spec_cells(
                                input@,
                                ce.1 as int,
                            )->Some_0.0);
                        }
                    }
                    cur = ce.1;
                },
                Result::Err(e) => {
                    proof {
                        assert(spec_cells(input@, cur as int) is None);
                    }
                    return Result::Err(e);
                },
            }
        }
    } else if b == 91 {
        let mut bytes: Vec<u8> = Vec::new();
        let mut cur = start + 1;
        loop
            invariant
                start + 1 <= cur <= input@.len(),
                spec_bytes(input@, start + 1 as int) == (match spec_bytes(input@, cur as int) {
                    Option::None => Option::None::<(Seq<u8>, int)>,
                    Option::Some(re) => Option::Some((bytes@ + re.0, re.1)),
                }),
            decreases input@.len() - cur,
        {
            let j = eat_junk(input, cur);
            if j < input.len() && input[j] == 93 {
                if bytes.len() == 0 {
                    return Result::Err(ParseError::Syntax(j));
                }
                proof {
                    assert(bytes@ + Seq::<u8>::empty() =~= bytes@);
                }
                return Result::Ok((Data::ByteArray(bytes), j + 1));
            }
            if j >= input.len() || j + 1 >= input.len() {
                return Result::Err(ParseError::Syntax(j));
            }
            let hi = match digit_value(input[j], 16) {
                Option::Some(v) => v,
                Option::None => {
                    return Result::Err(ParseError::Syntax(j));
                },
            };
            let lo = match digit_value(input[j + 1], 16) {
                Option::Some(v) => v,
                Option::None => {
                    return Result::Err(ParseError::Syntax(j + 1));
                },
            };
            let ghost prebytes = bytes@;
            bytes.push((hi * 16 + lo) as u8);
            proof {
                if spec_bytes(input@, j + 2) is Some {
                    assert(prebytes + (seq![(hi * 16 + lo) as u8] + spec_bytes(
                        input@,
                        j + 2,
                    )->Some_0.0) =~= bytes@ + spec_bytes(input@, j + 2)->Some_0.0);
                }
            }
            cur = j + 2;
        }
    } else if b == AMP {
        match parse_ref(input, start) {
            Result::Ok(re) => Result::Ok((Data::Reference(re.0), re.1)),
            Result::Err(e) => Result::Err(e),
        }
    } else {
        Result::Err(ParseError::Syntax(start))
    }
}

/// The end of the maximal run of name characters starting at `j`.
pub open spec fn name_run_end(s: Seq<u8>, j: int) -> int
    decreases s.len() - j,
    when 0 <= j <= s.len()
{
    if j < s.len() && spec_is_prop_node_char(s[j]) {
        name_run_end(s, j + 1)
    } else {
        j
    }
}

/// A maximal run of name characters ends exactly at `name_run_end`.
pub proof fn lemma_name_run(s: Seq<u8>, j: int, e: int)
    requires
        0 <= j <= e <= s.len(),
        forall|k: int| j <= k < e ==> spec_is_prop_node_char(#[trigger] s[k]),
        e == s.len() || !spec_is_prop_node_char(s[e]),
    ensures
        name_run_end(s, j) == e,
    decreases e - j,
{
    if j < e {
        lemma_name_run(s, j + 1, e);
    }
}

pub proof fn lemma_name_run_lb(s: Seq<u8>, j: int)
    requires
        0 <= j <= s.len(),
    ensures
        j <= name_run_end(s, j) <= s.len(),
    decreases s.len() - j,
{
    if j < s.len() && spec_is_prop_node_char(s[j]) {
        lemma_name_run_lb(s, j + 1);
    }
}

/// What a label at `pos` denotes: its characters and the position after it.
pub open spec fn spec_label(s: Seq<u8>, pos: int) -> Option<(Seq<u8>, int)> {
    if pos < s.len() && spec_is_label_start(s[pos]) {
        Option::Some((s.subrange(pos, label_run_end(s, pos + 1)), label_run_end(s, pos + 1)))
    } else {
        Option::None
    }
}

/// The `label:` prefixes from `pos` over an accumulator: each new label is
/// appended once (the first occurrence keeps its slot), and the position
/// after the last prefix is returned.
pub open spec fn spec_label_prefixes(s: Seq<u8>, pos: int, acc: Seq<Seq<u8>>) -> (
    Seq<Seq<u8>>,
    int,
)
    decreases s.len() - pos,
    when 0 <= pos <= s.len()
    via spec_label_prefixes_dec
{
    let j = spec_skip(s, pos);
    match spec_label(s, j) {
        Option::None => (acc, pos),
        Option::Some(le) => {
            let a = spec_skip(s, le.1);
            if a < s.len() && s[a] == 58 {
                spec_label_prefixes(
                    s,
                    a + 1,
                    if acc.contains(le.0) {
                        acc
                    } else {
                        acc.push(le.0)
                    },
                )
            } else {
                (acc, pos)
            }
        },
    }
}

#[via_fn]
proof fn spec_label_prefixes_dec(s: Seq<u8>, pos: int, acc: Seq<Seq<u8>>) {
    if 0 <= pos && pos <= s.len() {
        lemma_skip_range(s, pos);
        let j = spec_skip(s, pos);
        if spec_label(s, j) is Some {
            lemma_label_run_lb(s, j + 1);
            lemma_skip_range(s, spec_label(s, j)->Some_0.1);
        }
    }
}

pub proof fn lemma_label_prefixes_end(s: Seq<u8>, pos: int, acc: Seq<Seq<u8>>)
    requires
        0 <= pos <= s.len(),
    ensures
        pos <= spec_label_prefixes(s, pos, acc).1 <= s.len(),
    decreases s.len() - pos,
{
    lemma_skip_range(s, pos);
    let j = spec_skip(s, pos);
    if spec_label(s, j) is Some {
        lemma_label_run_lb(s, j + 1);
        let e = spec_label(s, j)->Some_0.1;
        lemma_skip_range(s, e);
        let a = spec_skip(s, e);
        if a < s.len() && s[a] == 58 {
            let acc2 = if acc.contains(spec_label(s, j)->Some_0.0) {
                acc
            } else {
                acc.push(spec_label(s, j)->Some_0.0)
            };
            lemma_label_prefixes_end(s, a + 1, acc2);
        }
    }
}

/// Reads `label:` prefixes, collapsing duplicates (the first occurrence
/// keeps its slot).  Returns the labels and the position after the last
/// prefix.
#[verifier::loop_isolation(false)]
fn parse_label_prefixes(input: &[u8], pos: usize) -> (r: (Vec<Vec<u8>>, usize))
    requires
        pos <= input@.len(),
    ensures
        pos <= r.1 <= input@.len(),
        spec_label_prefixes(input@, pos as int, Seq::empty()) == (labels_view(r.0@), r.1 as int),
{
    let mut labels: Vec<Vec<u8>> = Vec::new();
    let mut cur = pos;
    proof {
        assert(labels_view(labels@) =~= Seq::<Seq<u8>>::empty());
    }
    loop
        invariant
            pos <= cur <= input@.len(),
            spec_label_prefixes(input@, pos as int, Seq::empty()) == spec_label_prefixes(
                input@,
                cur as int,
                labels_view(labels@),
            ),
        decreases input@.len() - cur,
    {
        let attempt = eat_junk(input, cur);
        match parse_label(input, attempt) {
            Result::Ok(le) => {
                proof {
                    lemma_label_run(input@, attempt + 1, le.1 as int);
                    assert(spec_label(input@, attempt as int) == Option::Some(
                        (le.0@, le.1 as int),
                    ));
                }
                let after = eat_junk(input, le.1);
                if after < input.len() && input[after] == 58 {
                    let ghost pre = labels_view(labels@);
                    if !contains_label(&labels, le.0.as_slice()) {
                        labels.push(le.0);
                        proof {
                            assert(labels_view(labels@) =~= pre.push(
                                labels@[labels@.len() - 1]@,
                            ));
                        }
                    }
                    cur = after + 1;
                } else {
                    return (labels, cur);
                }
            },
            Result::Err(_) => {
                proof {
                    assert(spec_label(input@, attempt as int) is None);
                }
                return (labels, cur);
            },
        }
    }
}


/// What a whole property at `pos` denotes: `label:` prefixes, a name, an
/// optional `=`-introduced comma-separated data list, the terminating `;`,
/// and the position after it.
pub open spec fn spec_prop(s: Seq<u8>, pos: int) -> Option<(PropV, int)> {
    let lp = spec_label_prefixes(s, pos, Seq::empty());
    let j = spec_skip(s, lp.1);
    let ne = name_run_end(s, j);
    if ne == j {
        Option::None
    } else {
        let name = s.subrange(j, ne);
        let a = spec_skip(s, ne);
        if a < s.len() && s[a] == 61 {
            match spec_data_list(s, a + 1) {
                Option::None => Option::None,
                Option::Some(de) => if de.1 < s.len() && s[de.1] == 59 {
                    Option::Some(
                        (
                            PropV {
                                deleted: false,
                                name,
                                val: Option::Some(de.0),
                                labels: lp.0,
                            },
                            de.1 + 1,
                        ),
                    )
                } else {
                    Option::None
                },
            }
        } else if a < s.len() && s[a] == 59 {
            Option::Some(
                (PropV { deleted: false, name, val: Option::None, labels: lp.0 }, a + 1),
            )
        } else {
            Option::None
        }
    }
}

/// Reads a property: `label:` prefixes, a name, an optional `=`-introduced
/// comma-separated data list, and the terminating `;`.
#[verifier::loop_isolation(false)]
pub fn parse_prop(input: &[u8], pos: usize) -> (r: Result<(Property, usize), ParseError>)
    requires
        pos <= input@.len(),
    ensures
        match r {
            Result::Ok(p) => {
                &&& pos < p.1 <= input@.len()
                &&& !p.0.deleted
                &&& name_literal(p.0.name@)
                &&& spec_prop(input@, pos as int) == Option::Some((prop_view(p.0), p.1 as int))
            },
            Result::Err(e) => spec_prop(input@, pos as int) is None,
        },
{
    proof {
        lemma_label_prefixes_end(input@, pos as int, Seq::empty());
    }
    let lp = parse_label_prefixes(input, pos);
    let labels = lp.0;
    let mut cur = eat_junk(input, lp.1);
    let name_end = scan_name(input, cur);
    proof {
        lemma_name_run(input@, cur as int, name_end as int);
    }
    if name_end == cur {
        return Result::Err(ParseError::Syntax(cur));
    }
    let name = copy_range(input, cur, name_end);
    proof {
        assert(spec_is_prop_node_char(input@[cur as int]));
        assert(name@[0] == input@[cur as int]);
        assert(name_literal(name@));
    }
    cur = eat_junk(input, name_end);
    let mut val: Option<Vec<Data>> = Option::None;
    if cur < input.len() && input[cur] == 61 {
        let list_start = cur + 1;
        let mut items: Vec<Data> = Vec::new();
        cur = list_start;
        loop
            invariant
                pos < cur <= input@.len(),
                list_start <= cur,
                spec_data_list(input@, list_start as int) == (match spec_data_list(
                    input@,
                    cur as int,
                ) {
                    Option::None => Option::None::<(Seq<DataV>, int)>,
                    Option::Some(re) => Option::Some(
                        (items@.map_values(|d: Data| data_view(d)) + re.0, re.1),
                    ),
                }),
            decreases input@.len() - cur,
        {
            let ghost dv = |d: Data| data_view(d);
            match parse_data(input, cur) {
                Result::Ok(de) => {
                    let ghost preitems = items@;
                    let ghost item_v = data_view(de.0);
                    items.push(de.0);
                    let j = eat_junk(input, de.1);
                    if j < input.len() && input[j] == 44 {
                        proof {
                            if spec_data_list(input@, j + 1) is Some {
                                assert(preitems.map_values(dv) + (seq![item_v] + spec_data_list(
                                    input@,
                                    j + 1,
                                )->Some_0.0) =~= items@.map_values(dv) + spec_data_list(
                                    input@,
                                    j + 1,
                                )->Some_0.0);
                            }
                        }
                        cur = j + 1;
                    } else {
                        proof {
                            assert(spec_data_list(input@, cur as int) == Option::Some(
                                (seq![item_v], j as int),
                            ));
                            assert(preitems.map_values(dv) + seq![item_v] =~= items@.map_values(
                                dv,
                            ));
                        }
                        cur = j;
                        val = Option::Some(items);
                        break;
                    }
                },
                Result::Err(e) => {
                    return Result::Err(e);
                },
            }
        }
    }
    if cur < input.len() && input[cur] == 59 {
        let prop = Property { deleted: false, name, val, labels };
        Result::Ok((prop, cur + 1))
    } else {
        Result::Err(ParseError::Syntax(cur))
    }
}

pub proof fn lemma_data_list_end(s: Seq<u8>, pos: int)
    requires
        0 <= pos <= s.len(),
        spec_data_list(s, pos) is Some,
    ensures
        pos < spec_data_list(s, pos)->Some_0.1 <= s.len(),
    decreases s.len() - pos,
{
    lemma_data_props(s, pos);
    let e = spec_data(s, pos)->Some_0.1;
    lemma_skip_range(s, e);
    let j = spec_skip(s, e);
    if j < s.len() && s[j] == 44 {
        lemma_data_list_end(s, j + 1);
    }
}

pub proof fn lemma_prop_end(s: Seq<u8>, pos: int)
    requires
        0 <= pos <= s.len(),
        spec_prop(s, pos) is Some,
    ensures
        pos < spec_prop(s, pos)->Some_0.1 <= s.len(),
{
    lemma_label_prefixes_end(s, pos, Seq::empty());
    let lp = spec_label_prefixes(s, pos, Seq::empty());
    lemma_skip_range(s, lp.1);
    let j = spec_skip(s, lp.1);
    lemma_name_run_lb(s, j);
    let ne = name_run_end(s, j);
    let a = spec_skip(s, ne);
    lemma_skip_range(s, ne);
    if a < s.len() && s[a] == 61 {
        lemma_data_list_end(s, a + 1);
    }
}

/// The run of properties at the head of a node body: every property the
/// grammar accepts, in file order, and the position where the run stops.
pub open spec fn spec_props(s: Seq<u8>, pos: int) -> (Seq<PropV>, int)
    decreases s.len() - pos,
    when 0 <= pos <= s.len()
    via spec_props_dec
{
    match spec_prop(s, pos) {
        Option::None => (Seq::empty(), pos),
        Option::Some(pe) => {
            let rest = spec_props(s, pe.1);
            (seq![pe.0] + rest.0, rest.1)
        },
    }
}

#[via_fn]
proof fn spec_props_dec(s: Seq<u8>, pos: int) {
    if 0 <= pos && pos <= s.len() {
        if spec_prop(s, pos) is Some {
            lemma_prop_end(s, pos);
        }
    }
}

pub proof fn lemma_props_end(s: Seq<u8>, pos: int)
    requires
        0 <= pos <= s.len(),
    ensures
        pos <= spec_props(s, pos).1 <= s.len(),
    decreases s.len() - pos,
{
    if spec_props(s, pos).0 == spec_props(s, pos).0 {
        if spec_prop(s, pos) is Some {
            lemma_prop_end(s, pos);
            lemma_props_end(s, spec_prop(s, pos)->Some_0.1);
        }
    }
}

/// What a node body (from just after the name) denotes: `{`, a run of
/// properties, a run of children, `}`, `;`; the properties' and children's
/// views in file order, and the position after the `;`.
pub open spec fn spec_node_body(s: Seq<u8>, pos: int) -> Option<((Seq<PropV>, Seq<NodeV>), int)>
    decreases s.len() - pos, 0int,
    when 0 <= pos <= s.len()
    via spec_node_body_dec
{
    let j = spec_skip(s, pos);
    if j < s.len() && s[j] == 123 {
        let pr = spec_props(s, j + 1);
        let ch = spec_children(s, pr.1);
        if ch.1 <= s.len() {
            let j2 = spec_skip(s, ch.1);
            if j2 < s.len() && s[j2] == 125 {
                let j3 = spec_skip(s, j2 + 1);
                if j3 < s.len() && s[j3] == 59 {
                    Option::Some(((pr.0, ch.0), j3 + 1))
                } else {
                    Option::None
                }
            } else {
                Option::None
            }
        } else {
            Option::None
        }
    } else {
        Option::None
    }
}

#[via_fn]
proof fn spec_node_body_dec(s: Seq<u8>, pos: int) {
    if 0 <= pos && pos <= s.len() {
        lemma_skip_range(s, pos);
        let j = spec_skip(s, pos);
        if j < s.len() && s[j] == 123 {
            lemma_props_end(s, j + 1);
        }
    }
}

/// The run of child nodes: every child the grammar accepts, in file order,
/// and the position where the run stops.
pub open spec fn spec_children(s: Seq<u8>, pos: int) -> (Seq<NodeV>, int)
    decreases s.len() - pos, 2int,
    when 0 <= pos <= s.len()
{
    match spec_child(s, pos) {
        Option::None => (Seq::empty(), pos),
        Option::Some(ce) => if pos < ce.1 && ce.1 <= s.len() {
            let rest = spec_children(s, ce.1);
            (seq![ce.0] + rest.0, rest.1)
        } else {
            (seq![ce.0], pos)
        },
    }
}

pub proof fn lemma_children_end(s: Seq<u8>, pos: int)
    requires
        0 <= pos <= s.len(),
    ensures
        pos <= spec_children(s, pos).1 <= s.len(),
    decreases s.len() - pos,
{
    match spec_child(s, pos) {
        Option::None => {},
        Option::Some(ce) => {
            if pos < ce.1 && ce.1 <= s.len() {
                lemma_children_end(s, ce.1);
            }
        },
    }
}

/// What a child node at `pos` denotes: `label:` prefixes, a literal name,
/// and the node body.
pub open spec fn spec_child(s: Seq<u8>, pos: int) -> Option<(NodeV, int)>
    decreases s.len() - pos, 1int,
    when 0 <= pos <= s.len()
    via spec_child_dec
{
    let lp = spec_label_prefixes(s, pos, Seq::empty());
    let j = spec_skip(s, lp.1);
    let ne = name_run_end(s, j);
    if ne == j || ne > s.len() {
        Option::None
    } else {
        match spec_node_body(s, ne) {
            Option::None => Option::None,
            Option::Some(be) => Option::Some(
                (
                    NodeV {
                        deleted: false,
                        name: s.subrange(j, ne),
                        props: be.0.0,
                        children: be.0.1,
                        labels: lp.0,
                    },
                    be.1,
                ),
            ),
        }
    }
}

#[via_fn]
proof fn spec_child_dec(s: Seq<u8>, pos: int) {
    if 0 <= pos && pos <= s.len() {
        lemma_label_prefixes_end(s, pos, Seq::empty());
        let lp = spec_label_prefixes(s, pos, Seq::empty());
        lemma_skip_range(s, lp.1);
        lemma_name_run_lb(s, spec_skip(s, lp.1));
    }
}

/// What a node at `pos` denotes: like a child, but the name may also be
/// the single character `/` (the root).
pub open spec fn spec_node(s: Seq<u8>, pos: int) -> Option<(NodeV, int)> {
    let lp = spec_label_prefixes(s, pos, Seq::empty());
    let j = spec_skip(s, lp.1);
    if j < s.len() && s[j] == SLASH {
        match spec_node_body(s, j + 1) {
            Option::None => Option::None,
            Option::Some(be) => Option::Some(
                (
                    NodeV {
                        deleted: false,
                        name: seq![SLASH],
                        props: be.0.0,
                        children: be.0.1,
                        labels: lp.0,
                    },
                    be.1,
                ),
            ),
        }
    } else {
        spec_child(s, pos)
    }
}

/// What an amendment block at `pos` denotes: a node whose name may also be
/// `&label` (kept as `&` plus the label) or `&{/path}` (kept as the path).
pub open spec fn spec_amend(s: Seq<u8>, pos: int) -> Option<(NodeV, int)> {
    let lp = spec_label_prefixes(s, pos, Seq::empty());
    let j = spec_skip(s, lp.1);
    if j < s.len() && s[j] == AMP {
        match spec_ref(s, j) {
            Option::None => Option::None,
            Option::Some(re) => {
                let nm = if re.0.len() > 0 && re.0[0] == SLASH {
                    re.0
                } else {
                    seq![AMP] + re.0
                };
                match spec_node_body(s, re.1) {
                    Option::None => Option::None,
                    Option::Some(be) => Option::Some(
                        (
                            NodeV {
                                deleted: false,
                                name: nm,
                                props: be.0.0,
                                children: be.0.1,
                                labels: lp.0,
                            },
                            be.1,
                        ),
                    ),
                }
            },
        }
    } else {
        spec_node(s, pos)
    }
}

/// Reads the body of a node after its name: `{`, properties, children,
/// `}`, `;`.  Properties precede children in the canonical form.
#[verifier::loop_isolation(false)]
fn parse_node_body(
    input: &[u8],
    pos: usize,
    name: Vec<u8>,
    labels: Vec<Vec<u8>>,
) -> (r: Result<(Node, usize), ParseError>)
    requires
        pos <= input@.len(),
    ensures
        match r {
            Result::Ok(p) => {
                &&& pos < p.1 <= input@.len()
                &&& !p.0.deleted
                &&& p.0.name@ == name@
                &&& p.0.labels == labels
                &&& node_wf(p.0)
                &&& input@[p.1 - 1] == 59
                &&& spec_node_body(input@, pos as int) == Option::Some(
                    (
                        (
                            p.0.proplist@.map_values(|q: Property| prop_view(q)),
                            crate::tree::children_view(p.0.children@),
                        ),
                        p.1 as int,
                    ),
                )
            },
            Result::Err(e) => spec_node_body(input@, pos as int) is None,
        },
    decreases input@.len() - pos, 0int,
{
    let mut cur = eat_junk(input, pos);
    if !(cur < input.len() && input[cur] == 123) {
        return Result::Err(ParseError::Syntax(cur));
    }
    let ghost props_start = cur + 1 as int;
    cur = cur + 1;
    let mut props: Vec<Property> = Vec::new();
    loop
        invariant
            pos < cur <= input@.len(),
            forall|i: int| 0 <= i < props@.len() ==> name_literal(
                (#[trigger] props@[i]).name@,
            ),
            spec_props(input@, props_start) == (
                props@.map_values(|q: Property| prop_view(q)) + spec_props(input@, cur as int).0,
                spec_props(input@, cur as int).1,
            ),
        decreases input@.len() - cur,
    {
        let ghost pv = |q: Property| prop_view(q);
        match parse_prop(input, cur) {
            Result::Ok(pe) => {
                let ghost prev = props@;
                let ghost item_v = prop_view(pe.0);
                props.push(pe.0);
                proof {
                    assert(prev.map_values(pv) + (seq![item_v] + spec_props(
                        input@,
                        pe.1 as int,
                    ).0) =~= props@.map_values(pv) + spec_props(input@, pe.1 as int).0);
                }
                cur = pe.1;
            },
            Result::Err(_) => {
                proof {
                    assert(spec_props(input@, cur as int) == (
                        Seq::<PropV>::empty(),
                        cur as int,
                    ));
                    assert(props@.map_values(pv) + Seq::<PropV>::empty() =~= props@.map_values(
                        pv,
                    ));
                }
                break;
            },
        }
    }
    let ghost children_start = cur as int;
    let mut children: Vec<Node> = Vec::new();
    loop
        invariant
            pos < cur <= input@.len(),
            children_wf(children@),
            spec_children(input@, children_start) == (
                crate::tree::children_view(children@) + spec_children(input@, cur as int).0,
                spec_children(input@, cur as int).1,
            ),
        decreases input@.len() - cur,
    {
        match parse_child_node(input, cur) {
            Result::Ok(ce) => {
                let ghost pre = children@;
                let ghost item_v = node_view(ce.0);
                children.push(ce.0);
                proof {
                    assert(children@.drop_last() =~= pre);
                    lemma_children_wf_push(pre, children@.last());
                    crate::tree::lemma_children_view_len(pre);
                    crate::tree::lemma_children_view_len(children@);
                    assert(crate::tree::children_view(children@) =~= crate::tree::children_view(
                        pre,
                    ).push(item_v));
                    assert(crate::tree::children_view(pre) + (seq![item_v] + spec_children(
                        input@,
                        ce.1 as int,
                    ).0) =~= crate::tree::children_view(children@) + spec_children(
                        input@,
                        ce.1 as int,
                    ).0);
                }
                cur = ce.1;
            },
            Result::Err(_) => {
                proof {
                    assert(spec_children(input@, cur as int) == (
                        Seq::<NodeV>::empty(),
                        cur as int,
                    ));
                    assert(crate::tree::children_view(children@) + Seq::<NodeV>::empty()
                        =~= crate::tree::children_view(children@));
                }
                break;
            },
        }
    }
    cur = eat_junk(input, cur);
    if !(cur < input.len() && input[cur] == 125) {
        return Result::Err(ParseError::Syntax(cur));
    }
    cur = eat_junk(input, cur + 1);
    if !(cur < input.len() && input[cur] == 59) {
        return Result::Err(ParseError::Syntax(cur));
    }
    let node = Node { deleted: false, name, proplist: props, children, labels };
    Result::Ok((node, cur + 1))
}

/// Reads a child node: `label:` prefixes, a literal name, and the body.
#[verifier::loop_isolation(false)]
fn parse_child_node(input: &[u8], pos: usize) -> (r: Result<(Node, usize), ParseError>)
    requires
        pos <= input@.len(),
    ensures
        match r {
            Result::Ok(p) => {
                &&& pos < p.1 <= input@.len()
                &&& !p.0.deleted
                &&& name_literal(p.0.name@)
                &&& node_wf(p.0)
                &&& spec_child(input@, pos as int) == Option::Some(
                    (node_view(p.0), p.1 as int),
                )
            },
            Result::Err(e) => spec_child(input@, pos as int) is None,
        },
    decreases input@.len() - pos, 1int,
{
    proof {
        lemma_label_prefixes_end(input@, pos as int, Seq::empty());
    }
    let lp = parse_label_prefixes(input, pos);
    let cur = eat_junk(input, lp.1);
    let name_end = scan_name(input, cur);
    proof {
        lemma_name_run(input@, cur as int, name_end as int);
    }
    if name_end == cur {
        return Result::Err(ParseError::Syntax(cur));
    }
    let name = copy_range(input, cur, name_end);
    proof {
        assert(spec_is_prop_node_char(input@[cur as int]));
        assert(name@[0] == input@[cur as int]);
        assert(name_literal(name@));
    }
    let r = parse_node_body(input, name_end, name, lp.0);
    r
}

/// Reads a node: `label:` prefixes, a literal name or `/`, and the body.
#[verifier::loop_isolation(false)]
pub fn parse_node(input: &[u8], pos: usize) -> (r: Result<(Node, usize), ParseError>)
    requires
        pos <= input@.len(),
    ensures
        match r {
            Result::Ok(p) => {
                &&& pos < p.1 <= input@.len()
                &&& !p.0.deleted
                &&& (name_literal(p.0.name@) || p.0.name@ == seq![SLASH])
                &&& node_wf(p.0)
                &&& spec_node(input@, pos as int) == Option::Some((node_view(p.0), p.1 as int))
            },
            Result::Err(e) => spec_node(input@, pos as int) is None,
        },
    decreases input@.len() - pos, 2int,
{
    proof {
        lemma_label_prefixes_end(input@, pos as int, Seq::empty());
    }
    let lp = parse_label_prefixes(input, pos);
    let cur = eat_junk(input, lp.1);
    if cur < input.len() && input[cur] == SLASH {
        let mut name: Vec<u8> = Vec::new();
        name.push(SLASH);
        proof {
            assert(name@ =~= seq![SLASH]);
        }
        return parse_node_body(input, cur + 1, name, lp.0);
    }
    proof {
        assert(spec_node(input@, pos as int) == spec_child(input@, pos as int));
    }
    let name_end = scan_name(input, cur);
    proof {
        lemma_name_run(input@, cur as int, name_end as int);
    }
    if name_end == cur {
        return Result::Err(ParseError::Syntax(cur));
    }
    let name = copy_range(input, cur, name_end);
    proof {
        assert(spec_is_prop_node_char(input@[cur as int]));
        assert(name@[0] == input@[cur as int]);
        assert(name_literal(name@));
    }
    let r = parse_node_body(input, name_end, name, lp.0);
    r
}

/// Reads an amendment block: a node whose name may also be `&label` or
/// `&{/path}`.  The reference is kept in the node's name (`&` plus label,
/// or the absolute path) for the label store to resolve.
#[verifier::loop_isolation(false)]
pub fn parse_amend_node(input: &[u8], pos: usize) -> (r: Result<(Node, usize), ParseError>)
    requires
        pos <= input@.len(),
    ensures
        match r {
            Result::Ok(p) => {
                &&& pos < p.1 <= input@.len()
                &&& !p.0.deleted
                &&& node_wf(p.0)
                &&& spec_amend(input@, pos as int) == Option::Some(
                    (node_view(p.0), p.1 as int),
                )
            },
            Result::Err(e) => spec_amend(input@, pos as int) is None,
        },
    decreases input@.len() - pos, 2int,
{
    proof {
        lemma_label_prefixes_end(input@, pos as int, Seq::empty());
    }
    let lp = parse_label_prefixes(input, pos);
    let cur = eat_junk(input, lp.1);
    if cur < input.len() && input[cur] == AMP {
        match parse_ref(input, cur) {
            Result::Ok(re) => {
                let mut name: Vec<u8> = Vec::new();
                let ghost rv = re.0@;
                if re.0.len() > 0 && re.0[0] == SLASH {
                    name = re.0;
                } else {
                    name.push(AMP);
                    let mut i: usize = 0;
                    let lab = re.0;
                    while i < lab.len()
                        invariant
                            i <= lab@.len(),
                            lab@ == rv,
                            name@ == seq![AMP] + rv.subrange(0, i as int),
                        decreases lab@.len() - i,
                    {
                        name.push(lab[i]);
                        proof {
                            assert(seq![AMP] + rv.subrange(0, i + 1 as int) =~= (seq![AMP]
                                + rv.subrange(0, i as int)).push(rv[i as int]));
                        }
                        i += 1;
                    }
                    proof {
                        assert(rv.subrange(0, rv.len() as int) =~= rv);
                        assert(name@ =~= seq![AMP] + rv);
                    }
                }
                return parse_node_body(input, re.1, name, lp.0);
            },
            Result::Err(e) => {
                return Result::Err(e);
            },
        }
    }
    proof {
        assert(spec_amend(input@, pos as int) == spec_node(input@, pos as int));
    }
    parse_node(input, pos)
}

/// The bytes of the `/memreserve/` keyword.
pub open spec fn memreserve_tag() -> Seq<u8> {
    seq![47u8, 109u8, 101u8, 109u8, 114u8, 101u8, 115u8, 101u8, 114u8, 118u8, 101u8, 47u8]
}

/// View of a reserve entry: address, size, labels.
pub open spec fn reserve_view(r: ReserveInfo) -> (u64, u64, Seq<Seq<u8>>) {
    (r.address, r.size, labels_view(r.labels@))
}

/// What a `/memreserve/ ADDR SIZE ;` directive at `pos` denotes, with its
/// label prefixes, and the position after it.
pub open spec fn spec_memreserve(s: Seq<u8>, pos: int) -> Option<
    ((u64, u64, Seq<Seq<u8>>), int),
> {
    let lp = spec_label_prefixes(s, pos, Seq::empty());
    let j = spec_skip(s, lp.1);
    if j + 12 <= s.len() && s.subrange(j, j + 12) == memreserve_tag() {
        let j2 = spec_skip(s, j + 12);
        match spec_num(s, j2) {
            Option::None => Option::None,
            Option::Some(n1) => if n1.0 > u64::MAX {
                Option::None
            } else {
                let j3 = spec_skip(s, n1.1);
                match spec_num(s, j3) {
                    Option::None => Option::None,
                    Option::Some(n2) => if n2.0 > u64::MAX {
                        Option::None
                    } else {
                        let j4 = spec_skip(s, n2.1);
                        if j4 < s.len() && s[j4] == 59 {
                            Option::Some(((n1.0 as u64, n2.0 as u64, lp.0), j4 + 1))
                        } else {
                            Option::None
                        }
                    },
                }
            },
        }
    } else {
        Option::None
    }
}

pub proof fn lemma_memreserve_end(s: Seq<u8>, pos: int)
    requires
        0 <= pos <= s.len(),
        spec_memreserve(s, pos) is Some,
    ensures
        pos < spec_memreserve(s, pos)->Some_0.1 <= s.len(),
{
    lemma_label_prefixes_end(s, pos, Seq::empty());
    let lp = spec_label_prefixes(s, pos, Seq::empty());
    lemma_skip_range(s, lp.1);
    let j = spec_skip(s, lp.1);
    lemma_skip_range(s, j + 12);
    let j2 = spec_skip(s, j + 12);
    lemma_num_props(s, j2);
    let n1 = spec_num(s, j2)->Some_0;
    lemma_skip_range(s, n1.1);
    let j3 = spec_skip(s, n1.1);
    lemma_num_props(s, j3);
    let n2 = spec_num(s, j3)->Some_0;
    lemma_skip_range(s, n2.1);
}

/// The run of `/memreserve/` directives from `pos`, in file order, and the
/// position where the run stops.
pub open spec fn spec_reserves(s: Seq<u8>, pos: int) -> (Seq<(u64, u64, Seq<Seq<u8>>)>, int)
    decreases s.len() - pos,
    when 0 <= pos <= s.len()
    via spec_reserves_dec
{
    match spec_memreserve(s, pos) {
        Option::None => (Seq::empty(), pos),
        Option::Some(me) => {
            let rest = spec_reserves(s, me.1);
            (seq![me.0] + rest.0, rest.1)
        },
    }
}

#[via_fn]
proof fn spec_reserves_dec(s: Seq<u8>, pos: int) {
    if 0 <= pos && pos <= s.len() {
        if spec_memreserve(s, pos) is Some {
            lemma_memreserve_end(s, pos);
        }
    }
}

/// Reads a `/memreserve/ ADDR SIZE ;` directive with its label prefixes.
#[verifier::loop_isolation(false)]
pub fn parse_mem_reserve(input: &[u8], pos: usize) -> (r: Result<(ReserveInfo, usize), ParseError>)
    requires
        pos <= input@.len(),
    ensures
        match r {
            Result::Ok(p) => pos < p.1 <= input@.len() && spec_memreserve(input@, pos as int)
                == Option::Some((reserve_view(p.0), p.1 as int)),
            Result::Err(e) => spec_memreserve(input@, pos as int) is None,
        },
{
    proof {
        lemma_label_prefixes_end(input@, pos as int, Seq::empty());
    }
    let lp = parse_label_prefixes(input, pos);
    let mut cur = eat_junk(input, lp.1);
    let tag: Vec<u8> = vec![47, 109, 101, 109, 114, 101, 115, 101, 114, 118, 101, 47];
    proof {
        assert(tag@ =~= memreserve_tag());
        assert(tag@.len() == 12);
    }
    if !match_at(input, cur, tag.as_slice()) {
        return Result::Err(ParseError::Syntax(cur));
    }
    let ilen = input.len();
    proof {
        assert(cur + 12 <= ilen);
    }
    cur = eat_junk(input, cur + 12);
    let addr = match num_u64(input, cur) {
        Result::Ok(ne) => {
            cur = ne.1;
            ne.0
        },
        Result::Err(e) => {
            return Result::Err(e);
        },
    };
    cur = eat_junk(input, cur);
    let size = match num_u64(input, cur) {
        Result::Ok(ne) => {
            cur = ne.1;
            ne.0
        },
        Result::Err(e) => {
            return Result::Err(e);
        },
    };
    cur = eat_junk(input, cur);
    if cur < input.len() && input[cur] == 59 {
        Result::Ok((ReserveInfo { address: addr, size, labels: lp.0 }, cur + 1))
    } else {
        Result::Err(ParseError::Syntax(cur))
    }
}

pub proof fn lemma_node_body_end(s: Seq<u8>, pos: int)
    requires
        0 <= pos <= s.len(),
        spec_node_body(s, pos) is Some,
    ensures
        pos < spec_node_body(s, pos)->Some_0.1 <= s.len(),
{
    lemma_skip_range(s, pos);
    let j = spec_skip(s, pos);
    lemma_props_end(s, j + 1);
    let pr = spec_props(s, j + 1);
    lemma_children_end(s, pr.1);
    let ch = spec_children(s, pr.1);
    lemma_skip_range(s, ch.1);
    let j2 = spec_skip(s, ch.1);
    lemma_skip_range(s, j2 + 1);
}

pub proof fn lemma_amend_end(s: Seq<u8>, pos: int)
    requires
        0 <= pos <= s.len(),
        spec_amend(s, pos) is Some,
    ensures
        pos < spec_amend(s, pos)->Some_0.1 <= s.len(),
{
    lemma_label_prefixes_end(s, pos, Seq::empty());
    let lp = spec_label_prefixes(s, pos, Seq::empty());
    lemma_skip_range(s, lp.1);
    let j = spec_skip(s, lp.1);
    if j < s.len() && s[j] == AMP {
        lemma_ref_props(s, j);
        lemma_node_body_end(s, spec_ref(s, j)->Some_0.1);
    } else {
        if j < s.len() && s[j] == SLASH {
            lemma_node_body_end(s, j + 1);
        } else {
            lemma_name_run_lb(s, j);
            let ne = name_run_end(s, j);
            lemma_node_body_end(s, ne);
        }
    }
}

/// The bytes of the `/dts-v1/;` marker.
pub open spec fn dts_marker() -> Seq<u8> {
    seq![47u8, 100u8, 116u8, 115u8, 45u8, 118u8, 49u8, 47u8, 59u8]
}

/// The amendment blocks from `pos` to the end of the input (trailing junk
/// allowed), in file order; nothing if some block is malformed.
pub open spec fn spec_amends(s: Seq<u8>, pos: int) -> Option<Seq<NodeV>>
    decreases s.len() - pos,
    when 0 <= pos <= s.len()
    via spec_amends_dec
{
    let j = spec_skip(s, pos);
    if j >= s.len() {
        Option::Some(Seq::empty())
    } else {
        match spec_amend(s, pos) {
            Option::None => Option::None,
            Option::Some(ae) => match spec_amends(s, ae.1) {
                Option::None => Option::None,
                Option::Some(rest) => Option::Some(seq![ae.0] + rest),
            },
        }
    }
}

#[via_fn]
proof fn spec_amends_dec(s: Seq<u8>, pos: int) {
    if 0 <= pos && pos <= s.len() {
        lemma_skip_range(s, pos);
        if spec_amend(s, pos) is Some {
            lemma_amend_end(s, pos);
        }
    }
}

/// What a whole document denotes: the `/dts-v1/;` marker after the skip,
/// the `/memreserve/` directives, the root node named `/`, and the
/// amendment blocks up to the end of input.
pub open spec fn spec_dts(s: Seq<u8>) -> Option<
    (Seq<(u64, u64, Seq<Seq<u8>>)>, NodeV, Seq<NodeV>),
> {
    let j = spec_skip(s, 0);
    if j + 9 <= s.len() && s.subrange(j, j + 9) == dts_marker() {
        let rs = spec_reserves(s, j + 9);
        if rs.1 <= s.len() {
            match spec_node(s, rs.1) {
                Option::None => Option::None,
                Option::Some(ne) => if ne.0.name == seq![SLASH] {
                    match spec_amends(s, ne.1) {
                        Option::None => Option::None,
                        Option::Some(ams) => Option::Some((rs.0, ne.0, ams)),
                    }
                } else {
                    Option::None
                },
            }
        } else {
            Option::None
        }
    } else {
        Option::None
    }
}

/// Reads a whole document: the `/dts-v1/;` marker, `/memreserve/`
/// directives, the root node (named `/`), and trailing amendment blocks,
/// consuming the whole input.  Returns the document and the flat amendment
/// list in file order.
#[verifier::loop_isolation(false)]
pub fn parse_dts(input: &[u8]) -> (r: Result<(BootInfo, Vec<Node>), ParseError>)
    ensures
        match r {
            Result::Ok(p) => {
                &&& !p.0.root.deleted
                &&& p.0.root.name@ == seq![SLASH]
                &&& node_wf(p.0.root)
                &&& p.0.boot_cpuid == 0
                &&& forall|i: int| 0 <= i < p.1@.len() ==> node_wf(#[trigger] p.1@[i])
                    && !p.1@[i].deleted
                &&& spec_dts(input@) == Option::Some(
                    (
                        p.0.reserve_info@.map_values(|q: ReserveInfo| reserve_view(q)),
                        node_view(p.0.root),
                        crate::tree::children_view(p.1@),
                    ),
                )
            },
            Result::Err(e) => spec_dts(input@) is None,
        },
{
    let mut cur = eat_junk(input, 0);
    let marker: Vec<u8> = vec![47, 100, 116, 115, 45, 118, 49, 47, 59];
    proof {
        assert(marker@ =~= dts_marker());
        assert(marker@.len() == 9);
    }
    if !match_at(input, cur, marker.as_slice()) {
        return Result::Err(ParseError::Syntax(cur));
    }
    let ilen = input.len();
    proof {
        assert(cur + 9 <= ilen);
    }
    let ghost reserves_start = cur + 9 as int;
    cur = cur + 9;
    let mut reserves: Vec<ReserveInfo> = Vec::new();
    loop
        invariant
            cur <= input@.len(),
            spec_reserves(input@, reserves_start) == (
                reserves@.map_values(|q: ReserveInfo| reserve_view(q)) + spec_reserves(
                    input@,
                    cur as int,
                ).0,
                spec_reserves(input@, cur as int).1,
            ),
        decreases input@.len() - cur,
    {
        let ghost rv = |q: ReserveInfo| reserve_view(q);
        match parse_mem_reserve(input, cur) {
            Result::Ok(me) => {
                let ghost prev = reserves@;
                let ghost item_v = reserve_view(me.0);
                reserves.push(me.0);
                proof {
                    assert(prev.map_values(rv) + (seq![item_v] + spec_reserves(
                        input@,
                        me.1 as int,
                    ).0) =~= reserves@.map_values(rv) + spec_reserves(input@, me.1 as int).0);
                }
                cur = me.1;
            },
            Result::Err(_) => {
                proof {
                    assert(spec_reserves(input@, cur as int) == (
                        Seq::<(u64, u64, Seq<Seq<u8>>)>::empty(),
                        cur as int,
                    ));
                    assert(reserves@.map_values(rv) + Seq::<(u64, u64, Seq<Seq<u8>>)>::empty()
                        =~= reserves@.map_values(rv));
                }
                break;
            },
        }
    }
    let root = match parse_node(input, cur) {
        Result::Ok(ne) => {
            cur = ne.1;
            ne.0
        },
        Result::Err(e) => {
            return Result::Err(e);
        },
    };
    if !(root.name.len() == 1 && root.name[0] == SLASH) {
        proof {
            assert(node_view(root).name != seq![SLASH]) by {
                if node_view(root).name == seq![SLASH] {
                    assert(root.name@.len() == 1 && root.name@[0] == SLASH);
                }
            }
        }
        return Result::Err(ParseError::Syntax(cur));
    }
    proof {
        assert(root.name@ =~= seq![SLASH]);
    }
    let ghost amends_start = cur as int;
    let mut amends: Vec<Node> = Vec::new();
    loop
        invariant
            cur <= input@.len(),
            forall|i: int| 0 <= i < amends@.len() ==> node_wf(#[trigger] amends@[i])
                && !amends@[i].deleted,
            spec_amends(input@, amends_start) == (match spec_amends(input@, cur as int) {
                Option::None => Option::None::<Seq<NodeV>>,
                Option::Some(rest) => Option::Some(
                    crate::tree::children_view(amends@) + rest,
                ),
            }),
        decreases input@.len() - cur,
    {
        let next = eat_junk(input, cur);
        if next >= input.len() {
            proof {
                assert(spec_amends(input@, cur as int) == Option::Some(Seq::<NodeV>::empty()));
                assert(crate::tree::children_view(amends@) + Seq::<NodeV>::empty()
                    =~= crate::tree::children_view(amends@));
            }
            break;
        }
        match parse_amend_node(input, cur) {
            Result::Ok(ae) => {
                let ghost pre = amends@;
                let ghost item_v = node_view(ae.0);
                amends.push(ae.0);
                proof {
                    crate::tree::lemma_children_view_len(pre);
                    crate::tree::lemma_children_view_len(amends@);
                    assert(crate::tree::children_view(amends@) =~= crate::tree::children_view(
                        pre,
                    ).push(item_v));
                    if spec_amends(input@, ae.1 as int) is Some {
                        assert(crate::tree::children_view(pre) + (seq![item_v] + spec_amends(
                            input@,
                            ae.1 as int,
                        )->Some_0) =~= crate::tree::children_view(amends@) + spec_amends(
                            input@,
                            ae.1 as int,
                        )->Some_0);
                    }
                }
                cur = ae.1;
            },
            Result::Err(e) => {
                return Result::Err(e);
            },
        }
    }
    let bi = BootInfo { reserve_info: reserves, boot_cpuid: 0, root };
    Result::Ok((bi, amends))
}

/// Escape closure: for every byte up to 0x7F written as/// Escape closure: for every byte up to 0x7F written as `\xHH`, the hex
/// escape decodes to exactly that byte and consumes exactly the two
/// digits.
pub proof fn lemma_escape_closure(s: Seq<u8>, pos: int, b: u8)
    requires
        0 <= pos,
        pos + 2 < s.len(),
        s[pos] == 120 || s[pos] == 88,
        digit_val(s[pos + 1]) < 16,
        digit_val(s[pos + 2]) < 16,
        pos + 3 == s.len() || digit_val(s[pos + 3]) >= 16,
        b == 16 * digit_val(s[pos + 1]) + digit_val(s[pos + 2]),
        b <= 127,
    ensures
        spec_escape(s, pos) == Option::Some((b, pos + 3)),
{
    assert(run_end(s, pos + 3, 16) == pos + 3);
    assert(run_end(s, pos + 2, 16) == run_end(s, pos + 3, 16));
    assert(run_end(s, pos + 1, 16) == run_end(s, pos + 2, 16));
    let run = s.subrange(pos + 1, pos + 3);
    assert(run.len() == 2);
    assert(run.drop_last() =~= seq![s[pos + 1]]);
    assert(run.last() == s[pos + 2]);
    assert(seq![s[pos + 1]].drop_last() =~= Seq::<u8>::empty());
    assert(digits_val(Seq::<u8>::empty(), 16) == 0);
    assert(digits_val(seq![s[pos + 1]], 16) == digit_val(s[pos + 1]));
    assert(digits_val(run, 16) == digit_val(s[pos + 1]) * 16 + digit_val(s[pos + 2]));
}

} // verus!
