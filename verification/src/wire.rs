//! The wire grammar of the protocol, at the level of character sequences.
//!
//! One message is one line. A command is written
//! `{"id":N,"path":"P","ask":A}` where `A` is `"FolderInfo"` or
//! `{"Download":K}`; a reply is `{"to_id":N,"response":R}` where `R` is a
//! directory object or an array of byte values. Numbers are decimal; the
//! characters of a path are written as they are, except for the quote, the
//! backslash and all control characters, which are escaped — the named
//! escapes for newline, carriage return and tab, `\u00XX` for the rest —
//! so that every message is one newline-free line. The decoders accept
//! what the encoders write and return the encoded value exactly;
//! `lemma_command_round_trip` and its siblings state that inverse.

use vstd::prelude::*;
use vstd::arithmetic::div_mod::lemma_fundamental_div_mod;
use crate::command::{CommandModel, Question};
use crate::folder_info::{DirContentModel, DirectoryModel};

verus! {

// ---------------------------------------------------------------------------
// Decimal numbers

/// The numeric value of a digit character, or -1 for any other character.
pub open spec fn digit_val(c: char) -> int {
    if c == '0' { 0 }
    else if c == '1' { 1 }
    else if c == '2' { 2 }
    else if c == '3' { 3 }
    else if c == '4' { 4 }
    else if c == '5' { 5 }
    else if c == '6' { 6 }
    else if c == '7' { 7 }
    else if c == '8' { 8 }
    else if c == '9' { 9 }
    else { -1 }
}

pub open spec fn is_digit(c: char) -> bool {
    digit_val(c) >= 0
}

/// The digit character of a value in 0..9.
pub open spec fn digit_char(d: int) -> char {
    if d == 0 { '0' }
    else if d == 1 { '1' }
    else if d == 2 { '2' }
    else if d == 3 { '3' }
    else if d == 4 { '4' }
    else if d == 5 { '5' }
    else if d == 6 { '6' }
    else if d == 7 { '7' }
    else if d == 8 { '8' }
    else { '9' }
}

/// The value of a hexadecimal digit character, or -1 for any other
/// character; both letter cases are read.
pub open spec fn hex_val(c: char) -> int {
    if c == 'a' || c == 'A' { 10 }
    else if c == 'b' || c == 'B' { 11 }
    else if c == 'c' || c == 'C' { 12 }
    else if c == 'd' || c == 'D' { 13 }
    else if c == 'e' || c == 'E' { 14 }
    else if c == 'f' || c == 'F' { 15 }
    else { digit_val(c) }
}

pub open spec fn is_hex(c: char) -> bool {
    hex_val(c) >= 0
}

/// The lower-case hexadecimal digit character of a value in 0..15.
pub open spec fn hex_char(d: int) -> char {
    if d < 10 { digit_char(d) }
    else if d == 10 { 'a' }
    else if d == 11 { 'b' }
    else if d == 12 { 'c' }
    else if d == 13 { 'd' }
    else if d == 14 { 'e' }
    else { 'f' }
}

/// The decimal writing of `n >= 0`, most significant digit first, no sign,
/// no leading zero (except for `0` itself).
pub open spec fn dec_digits(n: int) -> Seq<char>
    decreases n,
{
    if n < 10 {
        seq![digit_char(n)]
    } else {
        dec_digits(n / 10).push(digit_char(n % 10))
    }
}

/// The value of a sequence of digit characters, most significant first.
pub open spec fn val_of(d: Seq<char>) -> int
    decreases d.len(),
{
    if d.len() == 0 {
        0
    } else {
        val_of(d.drop_last()) * 10 + digit_val(d.last())
    }
}

/// Where the run of digit characters beginning at `i` ends.
pub open spec fn run_end(s: Seq<char>, i: int) -> int
    decreases s.len() - i,
{
    if 0 <= i && i < s.len() && is_digit(s[i]) {
        run_end(s, i + 1)
    } else {
        i
    }
}

/// Reads the longest run of digits at `i` as a number: its value and the
/// position after it. Nothing if no digit stands at `i`, or if the value
/// does not fit the machine's word.
pub open spec fn parse_number(s: Seq<char>, i: int) -> Option<(usize, int)> {
    let j = run_end(s, i);
    if j == i {
        None
    } else if val_of(s.subrange(i, j)) > usize::MAX {
        None
    } else {
        Some((val_of(s.subrange(i, j)) as usize, j))
    }
}

pub proof fn lemma_run_end_bounds(s: Seq<char>, i: int)
    requires
        0 <= i <= s.len(),
    ensures
        i <= run_end(s, i) <= s.len(),
    decreases s.len() - i,
{
    if i < s.len() && is_digit(s[i]) {
        lemma_run_end_bounds(s, i + 1);
    }
}

/// A run of digits in `[i, j)` with a non-digit (or the end) at `j` ends
/// exactly at `j`.
pub proof fn lemma_run_end_at(s: Seq<char>, i: int, j: int)
    requires
        0 <= i <= j <= s.len(),
        forall|k: int| i <= k < j ==> is_digit(s[k]),
        j == s.len() || !is_digit(s[j]),
    ensures
        run_end(s, i) == j,
    decreases j - i,
{
    if i < j {
        lemma_run_end_at(s, i + 1, j);
    }
}

/// Every character the decimal writing produces is a digit, and there is at
/// least one.
pub proof fn lemma_dec_digits_are_digits(n: int)
    requires
        0 <= n,
    ensures
        dec_digits(n).len() >= 1,
        forall|k: int| 0 <= k < dec_digits(n).len() ==> is_digit(#[trigger] dec_digits(n)[k]),
    decreases n,
{
    if n >= 10 {
        lemma_dec_digits_are_digits(n / 10);
    }
}

/// Reading the decimal writing back gives the value written.
pub proof fn lemma_val_of_dec_digits(n: int)
    requires
        0 <= n,
    ensures
        val_of(dec_digits(n)) == n,
    decreases n,
{
    reveal_with_fuel(val_of, 3);
    if n < 10 {
        assert(dec_digits(n).drop_last() =~= Seq::<char>::empty());
        assert(val_of(Seq::<char>::empty()) == 0);
        assert(dec_digits(n).last() == digit_char(n));
        assert(digit_val(digit_char(n)) == n);
    } else {
        lemma_val_of_dec_digits(n / 10);
        assert(dec_digits(n).drop_last() =~= dec_digits(n / 10));
        assert(dec_digits(n).last() == digit_char(n % 10));
        assert(digit_val(digit_char(n % 10)) == n % 10);
        assert(n / 10 * 10 + n % 10 == n);
    }
}

/// The value of a digit sequence is never negative.
pub proof fn lemma_val_of_nonneg(d: Seq<char>)
    requires
        forall|k: int| 0 <= k < d.len() ==> is_digit(d[k]),
    ensures
        val_of(d) >= 0,
    decreases d.len(),
{
    if d.len() > 0 {
        lemma_val_of_nonneg(d.drop_last());
    }
}

/// Reading more digits never shrinks the value.
pub proof fn lemma_val_of_monotone(s: Seq<char>, i: int, j: int, k: int)
    requires
        0 <= i <= j <= k <= s.len(),
        forall|t: int| i <= t < k ==> is_digit(s[t]),
    ensures
        val_of(s.subrange(i, j)) <= val_of(s.subrange(i, k)),
    decreases k - j,
{
    if j < k {
        lemma_val_of_monotone(s, i, j, k - 1);
        let a = s.subrange(i, k - 1);
        let b = s.subrange(i, k);
        assert(b.drop_last() =~= a);
        assert(b.last() == s[k - 1]);
        assert(forall|t: int| 0 <= t < a.len() ==> is_digit(a[t]));
        lemma_val_of_nonneg(a);
        assert(val_of(b) == val_of(a) * 10 + digit_val(s[k - 1]));
        assert(digit_val(s[k - 1]) >= 0);
        assert(val_of(a) * 10 >= val_of(a));
    }
}

/// Where the decimal writing of `n` stands at `i`, followed by a non-digit,
/// the number reader returns exactly `n` and stops right after it.
pub proof fn lemma_parse_number_at(s: Seq<char>, i: int, n: int)
    requires
        0 <= n <= usize::MAX,
        0 <= i,
        i + dec_digits(n).len() <= s.len(),
        s.subrange(i, i + dec_digits(n).len()) == dec_digits(n),
        i + dec_digits(n).len() == s.len()
            || !is_digit(s[i + dec_digits(n).len()]),
    ensures
        parse_number(s, i) == Some((n as usize, i + dec_digits(n).len())),
{
    let j = i + dec_digits(n).len();
    lemma_dec_digits_are_digits(n);
    assert forall|k: int| i <= k < j implies is_digit(s[k]) by {
        assert(s[k] == s.subrange(i, j)[k - i]);
    }
    lemma_run_end_at(s, i, j);
    lemma_val_of_dec_digits(n);
}

// ---------------------------------------------------------------------------
// Strings

/// How one character is written inside a quoted string: the quote, the
/// backslash, newline, carriage return and tab get a two-character escape
/// (so no message ever carries a raw newline), everything else stands as
/// itself.
pub open spec fn esc_char(c: char) -> Seq<char> {
    if c == '"' { seq!['\\', '"'] }
    else if c == '\\' { seq!['\\', '\\'] }
    else if c == '\n' { seq!['\\', 'n'] }
    else if c == '\r' { seq!['\\', 'r'] }
    else if c == '\t' { seq!['\\', 't'] }
    else if (c as u32) < 32 {
        seq!['\\', 'u', '0', '0', hex_char((c as u32 / 16) as int), hex_char((c as u32 % 16) as int)]
    }
    else { seq![c] }
}

/// The escaped writing of a whole string body.
pub open spec fn esc(s: Seq<char>) -> Seq<char>
    decreases s.len(),
{
    if s.len() == 0 {
        Seq::empty()
    } else {
        esc_char(s[0]) + esc(s.drop_first())
    }
}

/// Escaping one more character at the end appends its escape.
pub proof fn lemma_esc_push(s: Seq<char>, c: char)
    ensures
        esc(s.push(c)) == esc(s) + esc_char(c),
    decreases s.len(),
{
    reveal_with_fuel(esc, 3);
    if s.len() == 0 {
        assert(s.push(c)[0] == c);
        assert(s.push(c).drop_first() =~= Seq::<char>::empty());
        assert(esc(s.push(c)) =~= esc(s) + esc_char(c));
    } else {
        lemma_esc_push(s.drop_first(), c);
        assert(s.push(c).drop_first() =~= s.drop_first().push(c));
        assert(esc(s.push(c)) =~= esc(s) + esc_char(c));
    }
}

/// The character an escape code stands for, if it is one.
pub open spec fn unesc_code(c: char) -> Option<char> {
    if c == '"' { Some('"') }
    else if c == '\\' { Some('\\') }
    else if c == 'n' { Some('\n') }
    else if c == 'r' { Some('\r') }
    else if c == 't' { Some('\t') }
    else { None }
}

/// Reads a quoted string body beginning at `i` (the opening quote already
/// behind): the characters it denotes and the position after the closing
/// quote. Nothing on a dangling or unknown escape or a missing quote.
pub open spec fn parse_string(s: Seq<char>, i: int) -> Option<(Seq<char>, int)>
    decreases s.len() - i,
{
    if i < 0 || i >= s.len() {
        None
    } else if s[i] == '"' {
        Some((Seq::empty(), i + 1))
    } else if s[i] == '\\' {
        if i + 1 >= s.len() {
            None
        } else if s[i + 1] == 'u' {
            if i + 6 <= s.len() && s[i + 2] == '0' && s[i + 3] == '0' && is_hex(s[i + 4])
                && is_hex(s[i + 5]) {
                let code = hex_val(s[i + 4]) * 16 + hex_val(s[i + 5]);
                match parse_string(s, i + 6) {
                    None => None,
                    Some((t, j)) => Some((seq![((code as u8) as char)] + t, j)),
                }
            } else {
                None
            }
        } else {
            match unesc_code(s[i + 1]) {
                None => None,
                Some(c) => match parse_string(s, i + 2) {
                    None => None,
                    Some((t, j)) => Some((seq![c] + t, j)),
                },
            }
        }
    } else {
        match parse_string(s, i + 1) {
            None => None,
            Some((t, j)) => Some((seq![s[i]] + t, j)),
        }
    }
}

pub proof fn lemma_parse_string_progress(s: Seq<char>, i: int)
    ensures
        match parse_string(s, i) {
            Some((t, j)) => i < j <= s.len(),
            None => true,
        },
    decreases s.len() - i,
{
    if 0 <= i && i < s.len() {
        if s[i] == '"' {
        } else if s[i] == '\\' {
            if i + 2 <= s.len() {
                lemma_parse_string_progress(s, i + 2);
            }
            if i + 6 <= s.len() {
                lemma_parse_string_progress(s, i + 6);
            }
        } else {
            lemma_parse_string_progress(s, i + 1);
        }
    }
}

/// Where the escaped writing of `p` stands at `i` with a closing quote
/// right after it, the string reader returns exactly `p` and stops after
/// the quote.
pub proof fn lemma_parse_string_at(s: Seq<char>, i: int, p: Seq<char>)
    requires
        0 <= i,
        i + esc(p).len() + 1 <= s.len(),
        s.subrange(i, i + esc(p).len()) == esc(p),
        s[i + esc(p).len()] == '"',
    ensures
        parse_string(s, i) == Some((p, i + esc(p).len() + 1)),
    decreases p.len(),
{
    let e = esc(p);
    if p.len() == 0 {
        assert(s[i] == '"');
    } else {
        let c = p[0];
        let rest = p.drop_first();
        let ec = esc_char(c);
        assert(e == ec + esc(rest));
        assert forall|k: int| 0 <= k < ec.len() implies s[i + k] == ec[k] by {
            assert(s[i + k] == s.subrange(i, i + e.len())[k]);
            assert(e[k] == ec[k]);
        }
        let i2 = i + ec.len();
        assert(s.subrange(i2, i2 + esc(rest).len()) =~= esc(rest)) by {
            assert forall|k: int| 0 <= k < esc(rest).len() implies s.subrange(
                i2,
                i2 + esc(rest).len(),
            )[k] == esc(rest)[k] by {
                assert(s[i2 + k] == s.subrange(i, i + e.len())[ec.len() + k]);
                assert(e[ec.len() + k] == esc(rest)[k]);
            }
        }
        lemma_parse_string_at(s, i2, rest);
        assert(s[i + 0] == ec[0]);
        if c == '"' || c == '\\' || c == '\n' || c == '\r' || c == '\t' {
            assert(s[i + 1] == ec[1]);
            assert(s[i] == '\\');
            assert(unesc_code(s[i + 1]) == Some(c));
            assert(seq![c] + rest =~= p);
        } else if (c as u32) < 32 {
            let hi = (c as u32 / 16) as int;
            let lo = (c as u32 % 16) as int;
            lemma_fundamental_div_mod(c as u32 as int, 16);
            assert(s[i + 1] == ec[1]);
            assert(s[i + 2] == ec[2]);
            assert(s[i + 3] == ec[3]);
            assert(s[i + 4] == ec[4]);
            assert(s[i + 5] == ec[5]);
            assert(s[i] == '\\');
            assert(s[i + 1] == 'u');
            assert(s[i + 2] == '0');
            assert(s[i + 3] == '0');
            assert(hex_val(hex_char(hi)) == hi);
            assert(hex_val(hex_char(lo)) == lo);
            assert(is_hex(s[i + 4]));
            assert(is_hex(s[i + 5]));
            let code = hex_val(s[i + 4]) * 16 + hex_val(s[i + 5]);
            assert(code == c as u32);
            assert(0 <= code < 32);
            assert(code as u8 == code);
            assert(((code as u8) as char) as u32 == code);
            vstd::utf8::char_u32_cast(c, (code as u8) as u32);
            assert(((code as u8) as char) == c);
            assert(seq![c] + rest =~= p);
        } else {
            assert(s[i] == c);
            assert(seq![c] + rest =~= p);
        }
    }
}

// ---------------------------------------------------------------------------
// Literal fragments of the grammar

pub open spec fn lit_cmd_id() -> Seq<char> {
    seq!['{', '"', 'i', 'd', '"', ':']
}

pub open spec fn lit_path() -> Seq<char> {
    seq![',', '"', 'p', 'a', 't', 'h', '"', ':', '"']
}

pub open spec fn lit_ask() -> Seq<char> {
    seq![',', '"', 'a', 's', 'k', '"', ':']
}

pub open spec fn lit_folder_q() -> Seq<char> {
    seq!['"', 'F', 'o', 'l', 'd', 'e', 'r', 'I', 'n', 'f', 'o', '"']
}

pub open spec fn lit_download() -> Seq<char> {
    seq!['{', '"', 'D', 'o', 'w', 'n', 'l', 'o', 'a', 'd', '"', ':']
}

/// Whether the literal `lit` stands in `s` at position `i`.
pub open spec fn match_lit(s: Seq<char>, i: int, lit: Seq<char>) -> bool {
    0 <= i && i + lit.len() <= s.len() && s.subrange(i, i + lit.len()) == lit
}

// ---------------------------------------------------------------------------
// Commands

/// The writing of a question: the bare word for a listing, an object with
/// the part number for a download.
pub open spec fn enc_question(q: Question) -> Seq<char> {
    match q {
        Question::FolderInfo => lit_folder_q(),
        Question::Download(part) => lit_download() + dec_digits(part as int) + seq!['}'],
    }
}

/// The writing of a whole command: one line, no newline in it.
pub open spec fn enc_command(c: CommandModel) -> Seq<char> {
    lit_cmd_id() + dec_digits(c.id as int) + lit_path() + esc(c.path) + seq!['"'] + lit_ask()
        + enc_question(c.ask) + seq!['}']
}

/// Reads a question at `i`: the question and the position after it.
pub open spec fn dec_question(s: Seq<char>, i: int) -> Option<(Question, int)> {
    if match_lit(s, i, lit_folder_q()) {
        Some((Question::FolderInfo, i + lit_folder_q().len()))
    } else if match_lit(s, i, lit_download()) {
        match parse_number(s, i + lit_download().len()) {
            None => None,
            Some((part, j)) => {
                if j < s.len() && s[j] == '}' {
                    Some((Question::Download(part), j + 1))
                } else {
                    None
                }
            },
        }
    } else {
        None
    }
}

/// Reads a whole line as a command. The one and only accepted form is the
/// one `enc_command` writes; anything else — other JSON spellings included —
/// is nothing, and costs the peer its connection.
pub open spec fn dec_command(s: Seq<char>) -> Option<CommandModel> {
    if !match_lit(s, 0, lit_cmd_id()) {
        None
    } else {
        match parse_number(s, lit_cmd_id().len() as int) {
            None => None,
            Some((id, i1)) => {
                if !match_lit(s, i1, lit_path()) {
                    None
                } else {
                    match parse_string(s, i1 + lit_path().len()) {
                        None => None,
                        Some((path, i2)) => {
                            if !match_lit(s, i2, lit_ask()) {
                                None
                            } else {
                                match dec_question(s, i2 + lit_ask().len()) {
                                    None => None,
                                    Some((ask, i3)) => {
                                        if i3 + 1 == s.len() && s[i3] == '}' {
                                            Some(CommandModel { id, path, ask })
                                        } else {
                                            None
                                        }
                                    },
                                }
                            }
                        },
                    }
                }
            },
        }
    }
}

/// Law: reading back a written command gives the command written, whatever
/// its id, its path and its question.
pub proof fn lemma_command_round_trip(c: CommandModel)
    ensures
        dec_command(enc_command(c)) == Some(c),
{
    let s = enc_command(c);
    let a1 = lit_cmd_id();
    let b = dec_digits(c.id as int);
    let a2 = lit_path();
    let d = esc(c.path);
    let a3 = lit_ask();
    let g = enc_question(c.ask);
    let o1 = a1.len() as int;
    let o2 = o1 + b.len();
    let o3 = o2 + a2.len();
    let o4 = o3 + d.len();
    let o5 = o4 + 1;
    let o6 = o5 + a3.len();
    let o7 = o6 + g.len();
    lemma_dec_digits_are_digits(c.id as int);
    assert(s.subrange(0, o1) =~= a1);
    assert(s.subrange(o1, o2) =~= b);
    assert(s[o2] == ',');
    lemma_parse_number_at(s, o1, c.id as int);
    assert(s.subrange(o2, o3) =~= a2);
    assert(s.subrange(o3, o4) =~= d);
    assert(s[o4] == '"');
    lemma_parse_string_at(s, o3, c.path);
    assert(s.subrange(o5, o6) =~= a3);
    match c.ask {
        Question::FolderInfo => {
            assert(s.subrange(o6, o7) =~= lit_folder_q());
            assert(dec_question(s, o6) == Some((c.ask, o7)));
        },
        Question::Download(part) => {
            let dl = lit_download();
            let pd = dec_digits(part as int);
            let o6a = o6 + dl.len();
            let o6b = o6a + pd.len();
            lemma_dec_digits_are_digits(part as int);
            assert(s[o6] == '{');
            assert(!match_lit(s, o6, lit_folder_q())) by {
                if match_lit(s, o6, lit_folder_q()) {
                    assert(s.subrange(o6, o6 + lit_folder_q().len())[0] == '"');
                }
            }
            assert(s.subrange(o6, o6a) =~= dl);
            assert(s.subrange(o6a, o6b) =~= pd);
            assert(s[o6b] == '}');
            lemma_parse_number_at(s, o6a, part as int);
            assert(o6b + 1 == o7);
            assert(dec_question(s, o6) == Some((c.ask, o7)));
        },
    }
    assert(s[o7] == '}');
    assert(o7 + 1 == s.len());
    let r = dec_command(s);
    assert(r == Some(CommandModel { id: c.id, path: c.path, ask: c.ask }));
    assert(CommandModel { id: c.id, path: c.path, ask: c.ask } == c);
}

// ---------------------------------------------------------------------------
// Responses

pub open spec fn lit_to_id() -> Seq<char> {
    seq!['{', '"', 't', 'o', '_', 'i', 'd', '"', ':']
}

pub open spec fn lit_response() -> Seq<char> {
    seq![',', '"', 'r', 'e', 's', 'p', 'o', 'n', 's', 'e', '"', ':']
}

pub open spec fn lit_dir_path() -> Seq<char> {
    seq!['{', '"', 'p', 'a', 't', 'h', '"', ':', '"']
}

pub open spec fn lit_childs() -> Seq<char> {
    seq![',', '"', 'c', 'h', 'i', 'l', 'd', 's', '"', ':', '[']
}

pub open spec fn lit_folder_c() -> Seq<char> {
    seq!['{', '"', 'F', 'o', 'l', 'd', 'e', 'r', '"', ':', '{', '"', 'n', 'a', 'm', 'e', '"', ':', '"']
}

pub open spec fn lit_file_c() -> Seq<char> {
    seq!['{', '"', 'F', 'i', 'l', 'e', '"', ':', '{', '"', 'n', 'a', 'm', 'e', '"', ':', '"']
}

pub open spec fn lit_symlink_c() -> Seq<char> {
    seq!['{', '"', 'S', 'y', 'm', 'l', 'i', 'n', 'k', '"', ':', '{', '"', 'n', 'a', 'm', 'e', '"', ':', '"']
}

/// The writing of one listed child: its variant's tag around its name.
pub open spec fn enc_content(m: DirContentModel) -> Seq<char> {
    match m {
        DirContentModel::Folder(name) => lit_folder_c() + esc(name) + seq!['"', '}', '}'],
        DirContentModel::File(name) => lit_file_c() + esc(name) + seq!['"', '}', '}'],
        DirContentModel::Symlink(name) => lit_symlink_c() + esc(name) + seq!['"', '}', '}'],
    }
}

/// The writing of a child list's inside: the children, comma-separated.
pub open spec fn enc_contents(cs: Seq<DirContentModel>) -> Seq<char>
    decreases cs.len(),
{
    if cs.len() == 0 {
        Seq::empty()
    } else if cs.len() == 1 {
        enc_content(cs[0])
    } else {
        enc_content(cs[0]) + seq![','] + enc_contents(cs.drop_first())
    }
}

/// The writing of a directory listing.
pub open spec fn enc_directory(d: DirectoryModel) -> Seq<char> {
    lit_dir_path() + esc(d.path) + seq!['"'] + lit_childs() + enc_contents(d.childs)
        + seq![']', '}']
}

/// The writing of a whole listing reply.
pub open spec fn enc_response_directory(to_id: usize, d: DirectoryModel) -> Seq<char> {
    lit_to_id() + dec_digits(to_id as int) + lit_response() + enc_directory(d) + seq!['}']
}

/// The writing of a byte array's inside: decimal values, comma-separated.
pub open spec fn enc_bytes(bs: Seq<u8>) -> Seq<char>
    decreases bs.len(),
{
    if bs.len() == 0 {
        Seq::empty()
    } else if bs.len() == 1 {
        dec_digits(bs[0] as int)
    } else {
        dec_digits(bs[0] as int) + seq![','] + enc_bytes(bs.drop_first())
    }
}

/// The writing of a whole download reply: the chunk as a byte array.
pub open spec fn enc_response_bytes(to_id: usize, bs: Seq<u8>) -> Seq<char> {
    lit_to_id() + dec_digits(to_id as int) + lit_response() + seq!['['] + enc_bytes(bs)
        + seq![']', '}']
}

/// Reads one listed child at `i`: the child and the position after it.
pub open spec fn dec_content(s: Seq<char>, i: int) -> Option<(DirContentModel, int)> {
    if match_lit(s, i, lit_folder_c()) {
        match parse_string(s, i + lit_folder_c().len()) {
            None => None,
            Some((name, j)) => {
                if j + 2 <= s.len() && s[j] == '}' && s[j + 1] == '}' {
                    Some((DirContentModel::Folder(name), j + 2))
                } else {
                    None
                }
            },
        }
    } else if match_lit(s, i, lit_file_c()) {
        match parse_string(s, i + lit_file_c().len()) {
            None => None,
            Some((name, j)) => {
                if j + 2 <= s.len() && s[j] == '}' && s[j + 1] == '}' {
                    Some((DirContentModel::File(name), j + 2))
                } else {
                    None
                }
            },
        }
    } else if match_lit(s, i, lit_symlink_c()) {
        match parse_string(s, i + lit_symlink_c().len()) {
            None => None,
            Some((name, j)) => {
                if j + 2 <= s.len() && s[j] == '}' && s[j + 1] == '}' {
                    Some((DirContentModel::Symlink(name), j + 2))
                } else {
                    None
                }
            },
        }
    } else {
        None
    }
}

pub proof fn lemma_dec_content_progress(s: Seq<char>, i: int)
    ensures
        match dec_content(s, i) {
            Some((m, j)) => i < j <= s.len(),
            None => true,
        },
{
    lemma_parse_string_progress(s, i + lit_folder_c().len());
    lemma_parse_string_progress(s, i + lit_file_c().len());
    lemma_parse_string_progress(s, i + lit_symlink_c().len());
}

/// Reads a child list at `i`, the opening bracket already behind: the
/// children and the position after the closing bracket. `fuel` only bounds
/// the recursion; any fuel at least the remaining length reads the same.
pub open spec fn dec_contents(s: Seq<char>, i: int, fuel: nat) -> Option<
    (Seq<DirContentModel>, int),
>
    decreases fuel,
{
    if 0 <= i && i < s.len() && s[i] == ']' {
        Some((Seq::empty(), i + 1))
    } else if fuel == 0 {
        None
    } else {
        match dec_content(s, i) {
            None => None,
            Some((m, j)) => {
                if j < s.len() && s[j] == ',' {
                    match dec_contents(s, j + 1, (fuel - 1) as nat) {
                        None => None,
                        Some((rest, k)) => Some((seq![m] + rest, k)),
                    }
                } else if j < s.len() && s[j] == ']' {
                    Some((seq![m], j + 1))
                } else {
                    None
                }
            },
        }
    }
}

/// The fuel does not matter once it covers the remaining input.
pub proof fn lemma_dec_contents_fuel(s: Seq<char>, i: int, f: nat, g: nat)
    requires
        f >= s.len() - i,
        g >= s.len() - i,
    ensures
        dec_contents(s, i, f) == dec_contents(s, i, g),
    decreases f + g,
{
    if 0 <= i && i < s.len() && s[i] == ']' {
    } else if f == 0 || g == 0 {
        assert(i >= s.len() || i < 0);
        assert(dec_content(s, i) is None);
    } else {
        lemma_dec_content_progress(s, i);
        match dec_content(s, i) {
            None => {},
            Some((m, j)) => {
                if j < s.len() && s[j] == ',' {
                    lemma_dec_contents_fuel(s, j + 1, (f - 1) as nat, (g - 1) as nat);
                }
            },
        }
    }
}

/// Reads a byte list at `i`, the opening bracket already behind.
pub open spec fn dec_byte_list(s: Seq<char>, i: int, fuel: nat) -> Option<(Seq<u8>, int)>
    decreases fuel,
{
    if 0 <= i && i < s.len() && s[i] == ']' {
        Some((Seq::empty(), i + 1))
    } else if fuel == 0 {
        None
    } else {
        match parse_number(s, i) {
            None => None,
            Some((v, j)) => {
                if v > 255 {
                    None
                } else if j < s.len() && s[j] == ',' {
                    match dec_byte_list(s, j + 1, (fuel - 1) as nat) {
                        None => None,
                        Some((rest, k)) => Some((seq![v as u8] + rest, k)),
                    }
                } else if j < s.len() && s[j] == ']' {
                    Some((seq![v as u8], j + 1))
                } else {
                    None
                }
            },
        }
    }
}

/// The fuel does not matter once it covers the remaining input.
pub proof fn lemma_dec_byte_list_fuel(s: Seq<char>, i: int, f: nat, g: nat)
    requires
        f >= s.len() - i,
        g >= s.len() - i,
    ensures
        dec_byte_list(s, i, f) == dec_byte_list(s, i, g),
    decreases f + g,
{
    if 0 <= i && i < s.len() && s[i] == ']' {
    } else if f == 0 || g == 0 {
        assert(i >= s.len() || i < 0);
        assert(run_end(s, i) == i);
        assert(parse_number(s, i) is None);
    } else {
        match parse_number(s, i) {
            None => {},
            Some((v, j)) => {
                assert(0 <= i && i < s.len()) by {
                    if !(0 <= i && i < s.len() && is_digit(s[i])) {
                        assert(run_end(s, i) == i);
                    }
                }
                lemma_run_end_bounds(s, i);
                if v <= 255 && j < s.len() && s[j] == ',' {
                    lemma_dec_byte_list_fuel(s, j + 1, (f - 1) as nat, (g - 1) as nat);
                }
            },
        }
    }
}

/// Reads a directory object at `i`.
pub open spec fn dec_directory(s: Seq<char>, i: int, fuel: nat) -> Option<(DirectoryModel, int)> {
    if !match_lit(s, i, lit_dir_path()) {
        None
    } else {
        match parse_string(s, i + lit_dir_path().len()) {
            None => None,
            Some((path, i1)) => {
                if !match_lit(s, i1, lit_childs()) {
                    None
                } else {
                    match dec_contents(s, i1 + lit_childs().len(), fuel) {
                        None => None,
                        Some((childs, i2)) => {
                            if i2 < s.len() && s[i2] == '}' {
                                Some((DirectoryModel { path, childs }, i2 + 1))
                            } else {
                                None
                            }
                        },
                    }
                }
            },
        }
    }
}

/// Reads a whole line as a listing reply: the echoed id and the listing.
/// As with commands, the one accepted form is the one the encoder writes.
pub open spec fn dec_response_directory(s: Seq<char>) -> Option<(usize, DirectoryModel)> {
    if !match_lit(s, 0, lit_to_id()) {
        None
    } else {
        match parse_number(s, lit_to_id().len() as int) {
            None => None,
            Some((to_id, i1)) => {
                if !match_lit(s, i1, lit_response()) {
                    None
                } else {
                    match dec_directory(s, i1 + lit_response().len(), s.len()) {
                        None => None,
                        Some((d, i2)) => {
                            if i2 + 1 == s.len() && s[i2] == '}' {
                                Some((to_id, d))
                            } else {
                                None
                            }
                        },
                    }
                }
            },
        }
    }
}

/// Reads a whole line as a download reply: the echoed id and the bytes.
pub open spec fn dec_response_bytes(s: Seq<char>) -> Option<(usize, Seq<u8>)> {
    if !match_lit(s, 0, lit_to_id()) {
        None
    } else {
        match parse_number(s, lit_to_id().len() as int) {
            None => None,
            Some((to_id, i1)) => {
                if !match_lit(s, i1, lit_response()) {
                    None
                } else if !(i1 + lit_response().len() < s.len()
                    && s[i1 + lit_response().len()] == '[') {
                    None
                } else {
                    match dec_byte_list(s, i1 + lit_response().len() + 1, s.len()) {
                        None => None,
                        Some((bs, i2)) => {
                            if i2 + 1 == s.len() && s[i2] == '}' {
                                Some((to_id, bs))
                            } else {
                                None
                            }
                        },
                    }
                }
            },
        }
    }
}

/// Where the writing of one child stands at `i`, the child reader returns
/// exactly that child and stops right after it.
pub proof fn lemma_dec_content_at(s: Seq<char>, i: int, m: DirContentModel)
    requires
        0 <= i,
        i + enc_content(m).len() <= s.len(),
        s.subrange(i, i + enc_content(m).len()) == enc_content(m),
    ensures
        dec_content(s, i) == Some((m, i + enc_content(m).len())),
{
    let e = enc_content(m);
    let name = match m {
        DirContentModel::Folder(n) => n,
        DirContentModel::File(n) => n,
        DirContentModel::Symlink(n) => n,
    };
    let open = match m {
        DirContentModel::Folder(n) => lit_folder_c(),
        DirContentModel::File(n) => lit_file_c(),
        DirContentModel::Symlink(n) => lit_symlink_c(),
    };
    assert(e == open + esc(name) + seq!['"', '}', '}']);
    let tb: int = open.len() as int + esc(name).len();
    assert(s.subrange(i, i + open.len()) =~= open) by {
        assert forall|k: int| 0 <= k < open.len() implies s.subrange(i, i + open.len())[k]
            == open[k] by {
            assert(s.subrange(i, i + open.len())[k] == s[i + k]);
            assert(s.subrange(i, i + e.len())[k] == e[k]);
            assert(e[k] == open[k]);
        }
    }
    let io = i + open.len();
    assert(s.subrange(io, io + esc(name).len()) =~= esc(name)) by {
        assert forall|k: int| 0 <= k < esc(name).len() implies s.subrange(
            io,
            io + esc(name).len(),
        )[k] == esc(name)[k] by {
            assert(s.subrange(io, io + esc(name).len())[k] == s[io + k]);
            assert(s.subrange(i, i + e.len())[open.len() + k] == e[open.len() + k]);
            assert(e[open.len() + k] == esc(name)[k]);
        }
    }
    assert(e[tb] == '"');
    assert(e[tb + 1] == '}');
    assert(e[tb + 2] == '}');
    assert(s.subrange(i, i + e.len())[tb] == e[tb]);
    assert(s.subrange(i, i + e.len())[tb + 1] == e[tb + 1]);
    assert(s.subrange(i, i + e.len())[tb + 2] == e[tb + 2]);
    assert(s[i + tb] == '"');
    lemma_parse_string_at(s, io, name);
    match m {
        DirContentModel::Folder(n) => {
            assert(match_lit(s, i, lit_folder_c()));
        },
        DirContentModel::File(n) => {
            assert(!match_lit(s, i, lit_folder_c())) by {
                if match_lit(s, i, lit_folder_c()) {
                    assert(s.subrange(i, i + lit_folder_c().len())[3] == 'l');
                    assert(s.subrange(i, i + e.len())[3] == e[3]);
                    assert(e[3] == 'i');
                }
            }
            assert(match_lit(s, i, lit_file_c()));
        },
        DirContentModel::Symlink(n) => {
            assert(!match_lit(s, i, lit_folder_c())) by {
                if match_lit(s, i, lit_folder_c()) {
                    assert(s.subrange(i, i + lit_folder_c().len())[2] == 'F');
                    assert(s.subrange(i, i + e.len())[2] == e[2]);
                    assert(e[2] == 'S');
                }
            }
            assert(!match_lit(s, i, lit_file_c())) by {
                if match_lit(s, i, lit_file_c()) {
                    assert(s.subrange(i, i + lit_file_c().len())[2] == 'F');
                    assert(s.subrange(i, i + e.len())[2] == e[2]);
                    assert(e[2] == 'S');
                }
            }
            assert(match_lit(s, i, lit_symlink_c()));
        },
    }
}

/// The writing of a child list is at least as long as the list.
pub proof fn lemma_enc_contents_len(cs: Seq<DirContentModel>)
    ensures
        enc_contents(cs).len() >= cs.len(),
    decreases cs.len(),
{
    if cs.len() > 1 {
        lemma_enc_contents_len(cs.drop_first());
    }
}

/// The writing of a byte list is at least as long as the list.
pub proof fn lemma_enc_bytes_len(bs: Seq<u8>)
    ensures
        enc_bytes(bs).len() >= bs.len(),
    decreases bs.len(),
{
    if bs.len() > 1 {
        lemma_enc_bytes_len(bs.drop_first());
    } else if bs.len() == 1 {
        lemma_dec_digits_are_digits(bs[0] as int);
    }
}

/// Where the writing of a child list stands at `i` with the closing bracket
/// right after it, the list reader returns exactly that list.
pub proof fn lemma_dec_contents_at(s: Seq<char>, i: int, cs: Seq<DirContentModel>, fuel: nat)
    requires
        0 <= i,
        fuel >= cs.len(),
        i + enc_contents(cs).len() + 1 <= s.len(),
        s.subrange(i, i + enc_contents(cs).len()) == enc_contents(cs),
        s[i + enc_contents(cs).len()] == ']',
    ensures
        dec_contents(s, i, fuel) == Some((cs, i + enc_contents(cs).len() + 1)),
    decreases cs.len(),
{
    let e = enc_contents(cs);
    if cs.len() == 0 {
        assert(s[i] == ']');
        assert(cs =~= Seq::<DirContentModel>::empty());
    } else {
        let m = cs[0];
        let a = enc_content(m);
        assert(a[0] == '{') by {
            match m {
                DirContentModel::Folder(n) => {},
                DirContentModel::File(n) => {},
                DirContentModel::Symlink(n) => {},
            }
        }
        if cs.len() == 1 {
            assert(e == a);
            lemma_dec_content_at(s, i, m);
            assert(s.subrange(i, i + e.len())[0] == e[0]);
            assert(s[i + 0] == '{');
            assert(s[i] != ']');
            assert(seq![m] =~= cs);
        } else {
            let rest = cs.drop_first();
            let b = enc_contents(rest);
            assert(e == a + seq![','] + b);
            assert(s.subrange(i, i + a.len()) =~= a) by {
                assert forall|k: int| 0 <= k < a.len() implies s.subrange(i, i + a.len())[k]
                    == a[k] by {
                    assert(s.subrange(i, i + a.len())[k] == s[i + k]);
                    assert(s.subrange(i, i + e.len())[k] == e[k]);
                    assert(e[k] == a[k]);
                }
            }
            lemma_dec_content_at(s, i, m);
            assert(s.subrange(i, i + e.len())[0] == e[0]);
            assert(s[i + 0] == '{');
            assert(s[i] != ']');
            let j = i + a.len();
            let ca: int = a.len() as int;
            assert(e[ca] == ',');
            assert(s.subrange(i, i + e.len())[ca] == e[ca]);
            assert(s[i + ca] == ',');
            assert(s.subrange(j + 1, j + 1 + b.len()) =~= b) by {
                assert forall|k: int| 0 <= k < b.len() implies s.subrange(j + 1, j + 1 + b.len())[k]
                    == b[k] by {
                    assert(s.subrange(j + 1, j + 1 + b.len())[k] == s[j + 1 + k]);
                    assert(s.subrange(i, i + e.len())[a.len() + 1 + k] == e[a.len() + 1 + k]);
                    assert(e[a.len() + 1 + k] == b[k]);
                }
            }
            assert(j + 1 + b.len() == i + e.len());
            lemma_dec_contents_at(s, j + 1, rest, (fuel - 1) as nat);
            assert(seq![m] + rest =~= cs);
        }
    }
}

/// Where the writing of a byte list stands at `i` with the closing bracket
/// right after it, the byte reader returns exactly those bytes.
pub proof fn lemma_dec_byte_list_at(s: Seq<char>, i: int, bs: Seq<u8>, fuel: nat)
    requires
        0 <= i,
        fuel >= bs.len(),
        i + enc_bytes(bs).len() + 1 <= s.len(),
        s.subrange(i, i + enc_bytes(bs).len()) == enc_bytes(bs),
        s[i + enc_bytes(bs).len()] == ']',
    ensures
        dec_byte_list(s, i, fuel) == Some((bs, i + enc_bytes(bs).len() + 1)),
    decreases bs.len(),
{
    let e = enc_bytes(bs);
    if bs.len() == 0 {
        assert(s[i] == ']');
        assert(bs =~= Seq::<u8>::empty());
    } else {
        let v = bs[0] as int;
        let a = dec_digits(v);
        lemma_dec_digits_are_digits(v);
        assert(is_digit(a[0]));
        if bs.len() == 1 {
            assert(e == a);
            lemma_parse_number_at(s, i, v);
            assert(s.subrange(i, i + e.len())[0] == e[0]);
            assert(s[i + 0] == a[0]);
            assert(s[i] != ']');
            assert(seq![bs[0]] =~= bs);
        } else {
            let rest = bs.drop_first();
            let b = enc_bytes(rest);
            assert(e == a + seq![','] + b);
            assert(s.subrange(i, i + a.len()) =~= a) by {
                assert forall|k: int| 0 <= k < a.len() implies s.subrange(i, i + a.len())[k]
                    == a[k] by {
                    assert(s.subrange(i, i + a.len())[k] == s[i + k]);
                    assert(s.subrange(i, i + e.len())[k] == e[k]);
                    assert(e[k] == a[k]);
                }
            }
            let j = i + a.len();
            let ca: int = a.len() as int;
            assert(e[ca] == ',');
            assert(s.subrange(i, i + e.len())[ca] == e[ca]);
            assert(s[i + ca] == ',');
            lemma_parse_number_at(s, i, v);
            assert(s.subrange(i, i + e.len())[0] == e[0]);
            assert(s[i + 0] == a[0]);
            assert(s[i] != ']');
            assert(s.subrange(j + 1, j + 1 + b.len()) =~= b) by {
                assert forall|k: int| 0 <= k < b.len() implies s.subrange(j + 1, j + 1 + b.len())[k]
                    == b[k] by {
                    assert(s.subrange(j + 1, j + 1 + b.len())[k] == s[j + 1 + k]);
                    assert(s.subrange(i, i + e.len())[a.len() + 1 + k] == e[a.len() + 1 + k]);
                    assert(e[a.len() + 1 + k] == b[k]);
                }
            }
            assert(j + 1 + b.len() == i + e.len());
            lemma_dec_byte_list_at(s, j + 1, rest, (fuel - 1) as nat);
            assert(seq![bs[0]] + rest =~= bs);
        }
    }
}

/// Where the writing of a directory object stands at `i`, the directory
/// reader returns exactly that directory and stops right after it.
pub proof fn lemma_dec_directory_at(s: Seq<char>, i: int, d: DirectoryModel, fuel: nat)
    requires
        0 <= i,
        fuel >= d.childs.len(),
        i + enc_directory(d).len() <= s.len(),
        s.subrange(i, i + enc_directory(d).len()) == enc_directory(d),
    ensures
        dec_directory(s, i, fuel) == Some((d, i + enc_directory(d).len())),
{
    let e = enc_directory(d);
    let p = esc(d.path);
    let cs = enc_contents(d.childs);
    let la = lit_dir_path();
    let lc = lit_childs();
    assert(e == la + p + seq!['"'] + lc + cs + seq![']', '}']);
    assert(s.subrange(i, i + la.len()) =~= la) by {
        assert forall|k: int| 0 <= k < la.len() implies s.subrange(i, i + la.len())[k]
            == la[k] by {
            assert(s.subrange(i, i + la.len())[k] == s[i + k]);
            assert(s.subrange(i, i + e.len())[k] == e[k]);
            assert(e[k] == la[k]);
        }
    }
    let i0 = i + la.len();
    assert(s.subrange(i0, i0 + p.len()) =~= p) by {
        assert forall|k: int| 0 <= k < p.len() implies s.subrange(i0, i0 + p.len())[k]
            == p[k] by {
            assert(s.subrange(i0, i0 + p.len())[k] == s[i0 + k]);
            assert(s.subrange(i, i + e.len())[la.len() + k] == e[la.len() + k]);
            assert(e[la.len() + k] == p[k]);
        }
    }
    let q: int = la.len() as int + p.len();
    assert(e[q] == '"');
    assert(s.subrange(i, i + e.len())[q] == e[q]);
    assert(s[i + q] == '"');
    lemma_parse_string_at(s, i0, d.path);
    let i1 = i + q + 1;
    assert(s.subrange(i1, i1 + lc.len()) =~= lc) by {
        assert forall|k: int| 0 <= k < lc.len() implies s.subrange(i1, i1 + lc.len())[k]
            == lc[k] by {
            assert(s.subrange(i1, i1 + lc.len())[k] == s[i1 + k]);
            assert(s.subrange(i, i + e.len())[q + 1 + k] == e[q + 1 + k]);
            assert(e[q + 1 + k] == lc[k]);
        }
    }
    let i2 = i1 + lc.len();
    assert(s.subrange(i2, i2 + cs.len()) =~= cs) by {
        assert forall|k: int| 0 <= k < cs.len() implies s.subrange(i2, i2 + cs.len())[k]
            == cs[k] by {
            assert(s.subrange(i2, i2 + cs.len())[k] == s[i2 + k]);
            assert(s.subrange(i, i + e.len())[q + 1 + lc.len() + k] == e[q + 1 + lc.len() + k]);
            assert(e[q + 1 + lc.len() + k] == cs[k]);
        }
    }
    let i3 = i2 + cs.len();
    let cb: int = q + 1 + lc.len() + cs.len();
    assert(e[cb] == ']');
    assert(s.subrange(i, i + e.len())[cb] == e[cb]);
    assert(s[i + cb] == ']');
    assert(e[cb + 1] == '}');
    assert(s.subrange(i, i + e.len())[cb + 1] == e[cb + 1]);
    assert(s[i + (cb + 1)] == '}');
    lemma_dec_contents_at(s, i2, d.childs, fuel);
    assert(DirectoryModel { path: d.path, childs: d.childs } == d);
}

/// Law: reading back a written listing reply gives the id and the listing
/// written, whatever the directory's path, its children and their variants.
pub proof fn lemma_response_directory_round_trip(to_id: usize, d: DirectoryModel)
    ensures
        dec_response_directory(enc_response_directory(to_id, d)) == Some((to_id, d)),
{
    let s = enc_response_directory(to_id, d);
    let b = dec_digits(to_id as int);
    let dir = enc_directory(d);
    let lt = lit_to_id();
    let lr = lit_response();
    let o1 = lt.len() as int;
    let o2 = o1 + b.len();
    let o3 = o2 + lr.len();
    let o4 = o3 + dir.len();
    lemma_dec_digits_are_digits(to_id as int);
    assert(s.subrange(0, o1) =~= lt);
    assert(s.subrange(o1, o2) =~= b);
    assert(s[o2] == ',');
    lemma_parse_number_at(s, o1, to_id as int);
    assert(s.subrange(o2, o3) =~= lr);
    assert(s.subrange(o3, o4) =~= dir);
    assert(s[o4] == '}');
    assert(o4 + 1 == s.len());
    lemma_enc_contents_len(d.childs);
    lemma_dec_directory_at(s, o3, d, s.len());
}

/// Law: reading back a written download reply gives the id and the bytes
/// written, whatever the chunk's contents.
pub proof fn lemma_response_bytes_round_trip(to_id: usize, bs: Seq<u8>)
    ensures
        dec_response_bytes(enc_response_bytes(to_id, bs)) == Some((to_id, bs)),
{
    let s = enc_response_bytes(to_id, bs);
    let b = dec_digits(to_id as int);
    let e = enc_bytes(bs);
    let lt = lit_to_id();
    let lr = lit_response();
    let o1 = lt.len() as int;
    let o2 = o1 + b.len();
    let o3 = o2 + lr.len();
    let o4 = o3 + 1;
    let o5 = o4 + e.len();
    lemma_dec_digits_are_digits(to_id as int);
    assert(s.subrange(0, o1) =~= lt);
    assert(s.subrange(o1, o2) =~= b);
    assert(s[o2] == ',');
    lemma_parse_number_at(s, o1, to_id as int);
    assert(s.subrange(o2, o3) =~= lr);
    assert(s[o3] == '[');
    assert(s.subrange(o4, o5) =~= e);
    assert(s[o5] == ']');
    assert(s[o5 + 1] == '}');
    assert(o5 + 2 == s.len());
    lemma_enc_bytes_len(bs);
    lemma_dec_byte_list_at(s, o4, bs, s.len());
}

} // verus!
