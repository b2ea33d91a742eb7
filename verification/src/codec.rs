//! The executable codec: turns commands and responses into wire lines and
//! back, character for character as the grammar in `wire` writes them.
//!
//! Encoding builds the line as a character vector and returns it as a
//! `String`; decoding walks a character vector and returns exactly what the
//! grammar's readers denote, so the round-trip laws of `wire` carry over to
//! these functions.

use vstd::prelude::*;
use vstd::string::StrSliceExecFns;
use crate::command::{Command, Question, Response};
use crate::folder_info::{DirContent, Directory};
use crate::folder_info::{FileInfo, FolderInfo, SymlinkInfo};
use crate::wire::{
    dec_byte_list, dec_command, dec_content, dec_contents, dec_digits,
    dec_question, dec_response_bytes, dec_response_directory, digit_char, digit_val, enc_bytes,
    hex_char, hex_val, is_hex,
    enc_command, enc_contents, enc_content, enc_question, enc_response_bytes,
    enc_response_directory, esc, is_digit, lemma_dec_byte_list_fuel,
    lemma_dec_contents_fuel, lemma_esc_push, lemma_run_end_at, lemma_val_of_monotone,
    lemma_val_of_nonneg, lit_ask, lit_childs, lit_cmd_id, lit_dir_path, lit_download,
    lit_file_c, lit_folder_c, lit_folder_q, lit_path, lit_response, lit_symlink_c, lit_to_id,
    match_lit, parse_number, parse_string, run_end, unesc_code, val_of,
};
use vstd::arithmetic::div_mod::lemma_fundamental_div_mod;

verus! {

/// The characters of a string, in order.
pub fn str_to_chars(s: &str) -> (r: Vec<char>)
    ensures
        r@ == s@,
{
    let n = s.unicode_len();
    let mut r: Vec<char> = Vec::new();
    let mut i: usize = 0;
    while i < n
        invariant
            i <= n,
            n == s@.len(),
            r@ == s@.subrange(0, i as int),
        decreases n - i,
    {
        r.push(s.get_char(i));
        proof {
            assert(r@ =~= s@.subrange(0, i as int + 1));
        }
        i = i + 1;
    }
    proof {
        assert(s@.subrange(0, n as int) =~= s@);
    }
    r
}

/// Relies on String::push: appends exactly the one character to the string.
#[verifier::external_body]
fn push_char(s: &mut String, c: char)
    ensures
        final(s)@ == old(s)@.push(c),
{
    s.push(c);
}

/// The string spelling the given characters, in order.
pub fn chars_to_string(v: &Vec<char>) -> (r: String)
    ensures
        r@ == v@,
{
    let mut r = String::new();
    let mut i: usize = 0;
    while i < v.len()
        invariant
            i <= v@.len(),
            r@ == v@.subrange(0, i as int),
        decreases v@.len() - i,
    {
        push_char(&mut r, v[i]);
        proof {
            assert(r@ =~= v@.subrange(0, i as int + 1));
        }
        i = i + 1;
    }
    proof {
        assert(v@.subrange(0, v@.len() as int) =~= v@);
    }
    r
}

/// Appends every character of `piece` to `out`.
fn push_all(out: &mut Vec<char>, piece: &Vec<char>)
    ensures
        final(out)@ == old(out)@ + piece@,
{
    let mut i: usize = 0;
    while i < piece.len()
        invariant
            i <= piece@.len(),
            out@ == old(out)@ + piece@.subrange(0, i as int),
        decreases piece@.len() - i,
    {
        out.push(piece[i]);
        proof {
            assert(out@ =~= old(out)@ + piece@.subrange(0, i as int + 1));
        }
        i = i + 1;
    }
    proof {
        assert(piece@.subrange(0, piece@.len() as int) =~= piece@);
    }
}

fn lit_cmd_id_vec() -> (v: Vec<char>)
    ensures
        v@ == lit_cmd_id(),
{
    let mut v: Vec<char> = Vec::new();
    v.push('{'); v.push('"'); v.push('i'); v.push('d'); v.push('"'); v.push(':');
    proof { assert(v@ =~= lit_cmd_id()); }
    v
}

fn lit_path_vec() -> (v: Vec<char>)
    ensures
        v@ == lit_path(),
{
    let mut v: Vec<char> = Vec::new();
    v.push(','); v.push('"'); v.push('p'); v.push('a'); v.push('t'); v.push('h');
    v.push('"'); v.push(':'); v.push('"');
    proof { assert(v@ =~= lit_path()); }
    v
}

fn lit_ask_vec() -> (v: Vec<char>)
    ensures
        v@ == lit_ask(),
{
    let mut v: Vec<char> = Vec::new();
    v.push(','); v.push('"'); v.push('a'); v.push('s'); v.push('k'); v.push('"'); v.push(':');
    proof { assert(v@ =~= lit_ask()); }
    v
}

fn lit_folder_q_vec() -> (v: Vec<char>)
    ensures
        v@ == lit_folder_q(),
{
    let mut v: Vec<char> = Vec::new();
    v.push('"'); v.push('F'); v.push('o'); v.push('l'); v.push('d'); v.push('e'); v.push('r');
    v.push('I'); v.push('n'); v.push('f'); v.push('o'); v.push('"');
    proof { assert(v@ =~= lit_folder_q()); }
    v
}

fn lit_download_vec() -> (v: Vec<char>)
    ensures
        v@ == lit_download(),
{
    let mut v: Vec<char> = Vec::new();
    v.push('{'); v.push('"'); v.push('D'); v.push('o'); v.push('w'); v.push('n'); v.push('l');
    v.push('o'); v.push('a'); v.push('d'); v.push('"'); v.push(':');
    proof { assert(v@ =~= lit_download()); }
    v
}

fn lit_to_id_vec() -> (v: Vec<char>)
    ensures
        v@ == lit_to_id(),
{
    let mut v: Vec<char> = Vec::new();
    v.push('{'); v.push('"'); v.push('t'); v.push('o'); v.push('_'); v.push('i'); v.push('d');
    v.push('"'); v.push(':');
    proof { assert(v@ =~= lit_to_id()); }
    v
}

fn lit_response_vec() -> (v: Vec<char>)
    ensures
        v@ == lit_response(),
{
    let mut v: Vec<char> = Vec::new();
    v.push(','); v.push('"'); v.push('r'); v.push('e'); v.push('s'); v.push('p'); v.push('o');
    v.push('n'); v.push('s'); v.push('e'); v.push('"'); v.push(':');
    proof { assert(v@ =~= lit_response()); }
    v
}

fn lit_dir_path_vec() -> (v: Vec<char>)
    ensures
        v@ == lit_dir_path(),
{
    let mut v: Vec<char> = Vec::new();
    v.push('{'); v.push('"'); v.push('p'); v.push('a'); v.push('t'); v.push('h'); v.push('"');
    v.push(':'); v.push('"');
    proof { assert(v@ =~= lit_dir_path()); }
    v
}

fn lit_childs_vec() -> (v: Vec<char>)
    ensures
        v@ == lit_childs(),
{
    let mut v: Vec<char> = Vec::new();
    v.push(','); v.push('"'); v.push('c'); v.push('h'); v.push('i'); v.push('l'); v.push('d');
    v.push('s'); v.push('"'); v.push(':'); v.push('[');
    proof { assert(v@ =~= lit_childs()); }
    v
}

fn lit_folder_c_vec() -> (v: Vec<char>)
    ensures
        v@ == lit_folder_c(),
{
    let mut v: Vec<char> = Vec::new();
    v.push('{'); v.push('"'); v.push('F'); v.push('o'); v.push('l'); v.push('d'); v.push('e');
    v.push('r'); v.push('"'); v.push(':'); v.push('{'); v.push('"'); v.push('n'); v.push('a');
    v.push('m'); v.push('e'); v.push('"'); v.push(':'); v.push('"');
    proof { assert(v@ =~= lit_folder_c()); }
    v
}

fn lit_file_c_vec() -> (v: Vec<char>)
    ensures
        v@ == lit_file_c(),
{
    let mut v: Vec<char> = Vec::new();
    v.push('{'); v.push('"'); v.push('F'); v.push('i'); v.push('l'); v.push('e'); v.push('"');
    v.push(':'); v.push('{'); v.push('"'); v.push('n'); v.push('a'); v.push('m'); v.push('e');
    v.push('"'); v.push(':'); v.push('"');
    proof { assert(v@ =~= lit_file_c()); }
    v
}

fn lit_symlink_c_vec() -> (v: Vec<char>)
    ensures
        v@ == lit_symlink_c(),
{
    let mut v: Vec<char> = Vec::new();
    v.push('{'); v.push('"'); v.push('S'); v.push('y'); v.push('m'); v.push('l'); v.push('i');
    v.push('n'); v.push('k'); v.push('"'); v.push(':'); v.push('{'); v.push('"'); v.push('n');
    v.push('a'); v.push('m'); v.push('e'); v.push('"'); v.push(':'); v.push('"');
    proof { assert(v@ =~= lit_symlink_c()); }
    v
}

/// The digit character of a value below ten.
fn digit_char_of(d: usize) -> (c: char)
    requires
        d < 10,
    ensures
        c == digit_char(d as int),
{
    if d == 0 { '0' }
    else if d == 1 { '1' }
    else if d == 2 { '2' }
    else if d == 3 { '3' }
    else if d == 4 { '4' }
    else if d == 5 { '5' }
    else if d == 6 { '6' }
    else if d == 7 { '7' }
    else if d == 8 { '8' }
    else { '9' }
}

/// The lower-case hexadecimal digit character of a value below sixteen.
fn hex_char_of(d: u32) -> (c: char)
    requires
        d < 16,
    ensures
        c == hex_char(d as int),
{
    if d < 10 {
        digit_char_of(d as usize)
    } else if d == 10 { 'a' }
    else if d == 11 { 'b' }
    else if d == 12 { 'c' }
    else if d == 13 { 'd' }
    else if d == 14 { 'e' }
    else { 'f' }
}

/// The numeric value of a hexadecimal digit character, if it is one.
fn hex_value(c: char) -> (r: Option<u32>)
    ensures
        match r {
            Some(d) => is_hex(c) && d == hex_val(c),
            None => !is_hex(c),
        },
{
    if c == '0' { Some(0) }
    else if c == '1' { Some(1) }
    else if c == '2' { Some(2) }
    else if c == '3' { Some(3) }
    else if c == '4' { Some(4) }
    else if c == '5' { Some(5) }
    else if c == '6' { Some(6) }
    else if c == '7' { Some(7) }
    else if c == '8' { Some(8) }
    else if c == '9' { Some(9) }
    else if c == 'a' || c == 'A' { Some(10) }
    else if c == 'b' || c == 'B' { Some(11) }
    else if c == 'c' || c == 'C' { Some(12) }
    else if c == 'd' || c == 'D' { Some(13) }
    else if c == 'e' || c == 'E' { Some(14) }
    else if c == 'f' || c == 'F' { Some(15) }
    else { None }
}

/// Appends the decimal writing of `n`.
fn push_digits(out: &mut Vec<char>, n: usize)
    ensures
        final(out)@ == old(out)@ + dec_digits(n as int),
    decreases n,
{
    if n < 10 {
        out.push(digit_char_of(n));
        proof {
            assert(out@ =~= old(out)@ + dec_digits(n as int));
        }
    } else {
        push_digits(out, n / 10);
        out.push(digit_char_of(n % 10));
        proof {
            assert(out@ =~= old(out)@ + dec_digits(n as int));
        }
    }
}

/// Appends the escaped writing of `p`.
fn push_escaped(out: &mut Vec<char>, p: &Vec<char>)
    ensures
        final(out)@ == old(out)@ + esc(p@),
{
    let mut i: usize = 0;
    while i < p.len()
        invariant
            i <= p@.len(),
            out@ == old(out)@ + esc(p@.subrange(0, i as int)),
        decreases p@.len() - i,
    {
        let ghost prefix = p@.subrange(0, i as int);
        let c = p[i];
        if c == '"' {
            out.push('\\');
            out.push('"');
        } else if c == '\\' {
            out.push('\\');
            out.push('\\');
        } else if c == '\n' {
            out.push('\\');
            out.push('n');
        } else if c == '\r' {
            out.push('\\');
            out.push('r');
        } else if c == '\t' {
            out.push('\\');
            out.push('t');
        } else {
            let code = c as u32;
            if code < 32 {
                out.push('\\');
                out.push('u');
                out.push('0');
                out.push('0');
                out.push(hex_char_of(code / 16));
                out.push(hex_char_of(code % 16));
            } else {
                out.push(c);
            }
        }
        proof {
            lemma_esc_push(prefix, c);
            assert(prefix.push(c) =~= p@.subrange(0, i as int + 1));
            assert(out@ =~= old(out)@ + esc(p@.subrange(0, i as int + 1)));
        }
        i = i + 1;
    }
    proof {
        assert(p@.subrange(0, p@.len() as int) =~= p@);
    }
}

/// Writes a command as one line of the wire grammar.
pub fn encode_command(c: &Command) -> (r: String)
    ensures
        r@ == enc_command(c@),
{
    let mut out: Vec<char> = Vec::new();
    let lit = lit_cmd_id_vec();
    push_all(&mut out, &lit);
    push_digits(&mut out, c.id);
    let lit = lit_path_vec();
    push_all(&mut out, &lit);
    let path_chars = str_to_chars(c.path.as_str());
    push_escaped(&mut out, &path_chars);
    out.push('"');
    let lit = lit_ask_vec();
    push_all(&mut out, &lit);
    match c.ask {
        Question::FolderInfo => {
            let lit = lit_folder_q_vec();
            push_all(&mut out, &lit);
        },
        Question::Download(part) => {
            let lit = lit_download_vec();
            push_all(&mut out, &lit);
            push_digits(&mut out, part);
            out.push('}');
            proof {
                assert(lit_download() + dec_digits(part as int) + seq!['}'] =~= enc_question(
                    c@.ask,
                ));
            }
        },
    }
    out.push('}');
    proof {
        assert(out@ =~= enc_command(c@));
    }
    chars_to_string(&out)
}

/// Appends the writing of one listed child.
fn push_content(out: &mut Vec<char>, c: &DirContent)
    ensures
        final(out)@ == old(out)@ + enc_content(c@),
{
    match c {
        DirContent::Folder(f) => {
            let lit = lit_folder_c_vec();
            push_all(out, &lit);
            let name_chars = str_to_chars(f.name().as_str());
            push_escaped(out, &name_chars);
        },
        DirContent::File(f) => {
            let lit = lit_file_c_vec();
            push_all(out, &lit);
            let name_chars = str_to_chars(f.name().as_str());
            push_escaped(out, &name_chars);
        },
        DirContent::Symlink(l) => {
            let lit = lit_symlink_c_vec();
            push_all(out, &lit);
            let name_chars = str_to_chars(l.name().as_str());
            push_escaped(out, &name_chars);
        },
    }
    out.push('"');
    out.push('}');
    out.push('}');
    proof {
        assert(out@ =~= old(out)@ + enc_content(c@));
    }
}

/// Appends the comma-separated writing of the children from `i` on.
fn push_contents(out: &mut Vec<char>, childs: &Vec<DirContent>, i: usize)
    requires
        i <= childs@.len(),
    ensures
        final(out)@ == old(out)@ + enc_contents(
            childs@.map_values(|c: DirContent| c@).skip(i as int),
        ),
    decreases childs@.len() - i,
{
    let ghost models = childs@.map_values(|c: DirContent| c@);
    if i < childs.len() {
        push_content(out, &childs[i]);
        proof {
            assert(models.skip(i as int)[0] == models[i as int]);
        }
        if i + 1 < childs.len() {
            out.push(',');
            push_contents(out, childs, i + 1);
            proof {
                assert(models.skip(i as int).drop_first() =~= models.skip(i as int + 1));
                assert(out@ =~= old(out)@ + enc_contents(models.skip(i as int)));
            }
        } else {
            proof {
                assert(models.skip(i as int).len() == 1);
                assert(out@ =~= old(out)@ + enc_contents(models.skip(i as int)));
            }
        }
    } else {
        proof {
            assert(models.skip(i as int) =~= Seq::empty());
            assert(out@ =~= old(out)@ + enc_contents(models.skip(i as int)));
        }
    }
}

/// Writes a listing reply as one line of the wire grammar.
pub fn encode_response_directory(r: &Response<Directory>) -> (out: String)
    ensures
        out@ == enc_response_directory(r.to_id, r.response@),
{
    let mut out: Vec<char> = Vec::new();
    let lit = lit_to_id_vec();
    push_all(&mut out, &lit);
    push_digits(&mut out, r.to_id);
    let lit = lit_response_vec();
    push_all(&mut out, &lit);
    let lit = lit_dir_path_vec();
    push_all(&mut out, &lit);
    let path_chars = str_to_chars(r.response.path.as_str());
    push_escaped(&mut out, &path_chars);
    out.push('"');
    let lit = lit_childs_vec();
    push_all(&mut out, &lit);
    push_contents(&mut out, &r.response.childs, 0);
    out.push(']');
    out.push('}');
    out.push('}');
    proof {
        let models = r.response.childs@.map_values(|c: DirContent| c@);
        assert(models.skip(0) =~= models);
        assert(out@ =~= enc_response_directory(r.to_id, r.response@));
    }
    chars_to_string(&out)
}

/// Appends the comma-separated decimal writing of the bytes from `i` on.
fn push_bytes(out: &mut Vec<char>, data: &Vec<u8>, i: usize)
    requires
        i <= data@.len(),
    ensures
        final(out)@ == old(out)@ + enc_bytes(data@.skip(i as int)),
    decreases data@.len() - i,
{
    if i < data.len() {
        push_digits(out, data[i] as usize);
        proof {
            assert(data@.skip(i as int)[0] == data@[i as int]);
        }
        if i + 1 < data.len() {
            out.push(',');
            push_bytes(out, data, i + 1);
            proof {
                assert(data@.skip(i as int).drop_first() =~= data@.skip(i as int + 1));
                assert(out@ =~= old(out)@ + enc_bytes(data@.skip(i as int)));
            }
        } else {
            proof {
                assert(data@.skip(i as int).len() == 1);
                assert(out@ =~= old(out)@ + enc_bytes(data@.skip(i as int)));
            }
        }
    } else {
        proof {
            assert(data@.skip(i as int) =~= Seq::empty());
            assert(out@ =~= old(out)@ + enc_bytes(data@.skip(i as int)));
        }
    }
}

/// Writes a download reply as one line of the wire grammar.
pub fn encode_response_bytes(r: &Response<Vec<u8>>) -> (out: String)
    ensures
        out@ == enc_response_bytes(r.to_id, r.response@),
{
    let mut out: Vec<char> = Vec::new();
    let lit = lit_to_id_vec();
    push_all(&mut out, &lit);
    push_digits(&mut out, r.to_id);
    let lit = lit_response_vec();
    push_all(&mut out, &lit);
    out.push('[');
    push_bytes(&mut out, &r.response, 0);
    out.push(']');
    out.push('}');
    proof {
        assert(r.response@.skip(0) =~= r.response@);
        assert(out@ =~= enc_response_bytes(r.to_id, r.response@));
    }
    chars_to_string(&out)
}

// ---------------------------------------------------------------------------
// Reading lines back

/// The numeric value of a digit character, if it is one.
fn digit_value(c: char) -> (r: Option<usize>)
    ensures
        match r {
            Some(d) => is_digit(c) && d == digit_val(c),
            None => !is_digit(c),
        },
{
    if c == '0' { Some(0) }
    else if c == '1' { Some(1) }
    else if c == '2' { Some(2) }
    else if c == '3' { Some(3) }
    else if c == '4' { Some(4) }
    else if c == '5' { Some(5) }
    else if c == '6' { Some(6) }
    else if c == '7' { Some(7) }
    else if c == '8' { Some(8) }
    else if c == '9' { Some(9) }
    else { None }
}

/// The character an escape code stands for, if it is one.
fn unescape_char(c: char) -> (r: Option<char>)
    ensures
        r == unesc_code(c),
{
    if c == '"' { Some('"') }
    else if c == '\\' { Some('\\') }
    else if c == 'n' { Some('\n') }
    else if c == 'r' { Some('\r') }
    else if c == 't' { Some('\t') }
    else { None }
}

/// Whether the literal stands in `s` at position `i`.
fn eat_lit(s: &Vec<char>, i: usize, lit: &Vec<char>) -> (r: bool)
    requires
        i <= s@.len(),
    ensures
        r == match_lit(s@, i as int, lit@),
        s@.len() <= usize::MAX,
{
    if s.len() - i < lit.len() {
        return false;
    }
    let mut k: usize = 0;
    while k < lit.len()
        invariant
            i + lit@.len() <= s@.len(),
            s@.len() <= usize::MAX,
            k <= lit@.len(),
            forall|t: int| 0 <= t < k ==> s@[i + t] == lit@[t],
        decreases lit@.len() - k,
    {
        if s[i + k] != lit[k] {
            proof {
                if match_lit(s@, i as int, lit@) {
                    assert(s@.subrange(i as int, i + lit@.len())[k as int] == lit@[k as int]);
                }
            }
            return false;
        }
        k = k + 1;
    }
    proof {
        assert(s@.subrange(i as int, i + lit@.len()) =~= lit@) by {
            assert forall|t: int| 0 <= t < lit@.len() implies s@.subrange(
                i as int,
                i + lit@.len(),
            )[t] == lit@[t] by {
                assert(s@.subrange(i as int, i + lit@.len())[t] == s@[i + t]);
            }
        }
    }
    true
}

/// Reads the longest digit run at `i` as a number, exactly as the grammar's
/// number reader does: its value and the position after it, or nothing when
/// no digit stands at `i` or the value overflows the machine word.
fn parse_number_at(s: &Vec<char>, i: usize) -> (r: Option<(usize, usize)>)
    requires
        i <= s@.len(),
    ensures
        match r {
            Some(p) => parse_number(s@, i as int) == Some((p.0, p.1 as int)) && i < p.1
                <= s@.len(),
            None => parse_number(s@, i as int) is None,
        },
{
    let mut j: usize = i;
    loop
        invariant_except_break
            i <= j <= s@.len(),
            forall|t: int| i <= t < j ==> is_digit(s@[t]),
        ensures
            i <= j <= s@.len(),
            forall|t: int| i <= t < j ==> is_digit(s@[t]),
            j == s@.len() || !is_digit(s@[j as int]),
        decreases s@.len() - j,
    {
        if j == s.len() {
            break;
        }
        if digit_value(s[j]).is_none() {
            break;
        }
        j = j + 1;
    }
    proof {
        lemma_run_end_at(s@, i as int, j as int);
    }
    if j == i {
        return None;
    }
    let mut val: usize = 0;
    let mut k: usize = i;
    while k < j
        invariant
            i <= k <= j <= s@.len(),
            run_end(s@, i as int) == j,
            forall|t: int| i <= t < j ==> is_digit(s@[t]),
            val == val_of(s@.subrange(i as int, k as int)),
        decreases j - k,
    {
        let dv = digit_value(s[k]);
        if dv.is_none() {
            proof {
                assert(false);
            }
            return None;
        }
        let d = dv.unwrap();
        proof {
            assert(s@.subrange(i as int, k + 1 as int).drop_last() =~= s@.subrange(
                i as int,
                k as int,
            ));
            assert(s@.subrange(i as int, k + 1 as int).last() == s@[k as int]);
            assert(val_of(s@.subrange(i as int, k + 1 as int)) == val * 10 + d);
        }
        if val > usize::MAX / 10 || (val == usize::MAX / 10 && d > usize::MAX % 10) {
            proof {
                lemma_fundamental_div_mod(usize::MAX as int, 10);
                assert(val * 10 + d > usize::MAX);
                assert(forall|t: int| 0 <= t < s@.subrange(i as int, k + 1 as int).len()
                    ==> is_digit(#[trigger] s@.subrange(i as int, k + 1 as int)[t]));
                lemma_val_of_monotone(s@, i as int, k + 1, j as int);
                assert(val_of(s@.subrange(i as int, j as int)) > usize::MAX);
            }
            return None;
        }
        proof {
            lemma_fundamental_div_mod(usize::MAX as int, 10);
        }
        val = val * 10 + d;
        k = k + 1;
    }
    Some((val, j))
}

/// Reads a quoted string body at `i`, exactly as the grammar's string
/// reader does.
fn parse_string_at(s: &Vec<char>, i: usize) -> (r: Option<(Vec<char>, usize)>)
    requires
        i <= s@.len(),
    ensures
        match r {
            Some(p) => parse_string(s@, i as int) == Some((p.0@, p.1 as int)) && i < p.1
                <= s@.len(),
            None => parse_string(s@, i as int) is None,
        },
{
    let mut acc: Vec<char> = Vec::new();
    let mut cur: usize = i;
    loop
        invariant
            i <= cur <= s@.len(),
            parse_string(s@, i as int) == match parse_string(s@, cur as int) {
                Some((t, j)) => Some((acc@ + t, j)),
                None => None::<(Seq<char>, int)>,
            },
        decreases s@.len() - cur,
    {
        if cur == s.len() {
            return None;
        }
        let c = s[cur];
        if c == '"' {
            proof {
                assert(acc@ + Seq::<char>::empty() =~= acc@);
            }
            return Some((acc, cur + 1));
        }
        if c == '\\' {
            if s.len() - cur < 2 {
                return None;
            }
            let code = s[cur + 1];
            if code == 'u' {
                if s.len() - cur < 6 {
                    return None;
                }
                if !(s[cur + 2] == '0' && s[cur + 3] == '0') {
                    return None;
                }
                let h1 = hex_value(s[cur + 4]);
                let h2 = hex_value(s[cur + 5]);
                if h1.is_none() || h2.is_none() {
                    return None;
                }
                let code_val: u32 = h1.unwrap() * 16 + h2.unwrap();
                let u = (code_val as u8) as char;
                let ghost old_acc = acc@;
                acc.push(u);
                proof {
                    match parse_string(s@, cur + 6 as int) {
                        Some((t, j)) => {
                            assert(acc@ + t =~= old_acc + (seq![u] + t));
                        },
                        None => {},
                    }
                }
                cur = cur + 6;
                continue;
            }
            match unescape_char(code) {
                None => {
                    return None;
                },
                Some(u) => {
                    let ghost old_acc = acc@;
                    acc.push(u);
                    proof {
                        match parse_string(s@, cur + 2 as int) {
                            Some((t, j)) => {
                                assert(acc@ + t =~= old_acc + (seq![u] + t));
                            },
                            None => {},
                        }
                    }
                    cur = cur + 2;
                },
            }
        } else {
            let ghost old_acc = acc@;
            acc.push(c);
            proof {
                match parse_string(s@, cur + 1 as int) {
                    Some((t, j)) => {
                        assert(acc@ + t =~= old_acc + (seq![c] + t));
                    },
                    None => {},
                }
            }
            cur = cur + 1;
        }
    }
}

/// Reads a question at `i`, exactly as the grammar's question reader does.
fn parse_question_at(s: &Vec<char>, i: usize) -> (r: Option<(Question, usize)>)
    requires
        i <= s@.len(),
    ensures
        match r {
            Some(p) => dec_question(s@, i as int) == Some((p.0, p.1 as int)) && p.1 <= s@.len(),
            None => dec_question(s@, i as int) is None,
        },
{
    let lf = lit_folder_q_vec();
    if eat_lit(s, i, &lf) {
        return Some((Question::FolderInfo, i + lf.len()));
    }
    let ld = lit_download_vec();
    if eat_lit(s, i, &ld) {
        match parse_number_at(s, i + ld.len()) {
            None => None,
            Some((part, j)) => {
                if j < s.len() {
                    if s[j] == '}' {
                        Some((Question::Download(part), j + 1))
                    } else {
                        None
                    }
                } else {
                    None
                }
            },
        }
    } else {
        None
    }
}

/// Reads one line back as a command: exactly the command whose writing the
/// line is, and nothing on any other line.
pub fn decode_command(line: &str) -> (r: Option<Command>)
    ensures
        match r {
            Some(c) => dec_command(line@) == Some(c@),
            None => dec_command(line@) is None,
        },
{
    let s = str_to_chars(line);
    let l1 = lit_cmd_id_vec();
    if !eat_lit(&s, 0, &l1) {
        return None;
    }
    match parse_number_at(&s, l1.len()) {
        None => None,
        Some((id, i1)) => {
            let l2 = lit_path_vec();
            if !eat_lit(&s, i1, &l2) {
                return None;
            }
            match parse_string_at(&s, i1 + l2.len()) {
                None => None,
                Some((path_chars, i2)) => {
                    let l3 = lit_ask_vec();
                    if !eat_lit(&s, i2, &l3) {
                        return None;
                    }
                    match parse_question_at(&s, i2 + l3.len()) {
                        None => None,
                        Some((ask, i3)) => {
                            if s.len() - i3 == 1 && s[i3] == '}' {
                                let path = chars_to_string(&path_chars);
                                Some(Command { id, path, ask })
                            } else {
                                None
                            }
                        },
                    }
                },
            }
        },
    }
}

/// Reads one listed child at `i`, exactly as the grammar's child reader
/// does.
fn parse_content_at(s: &Vec<char>, i: usize) -> (r: Option<(DirContent, usize)>)
    requires
        i <= s@.len(),
    ensures
        match r {
            Some(p) => dec_content(s@, i as int) == Some((p.0@, p.1 as int)) && i < p.1
                <= s@.len(),
            None => dec_content(s@, i as int) is None,
        },
{
    let lf = lit_folder_c_vec();
    if eat_lit(s, i, &lf) {
        return match parse_string_at(s, i + lf.len()) {
            None => None,
            Some((name, j)) => {
                if s.len() - j >= 2 && s[j] == '}' && s[j + 1] == '}' {
                    Some((DirContent::Folder(FolderInfo::new(chars_to_string(&name))), j + 2))
                } else {
                    None
                }
            },
        };
    }
    let lf = lit_file_c_vec();
    if eat_lit(s, i, &lf) {
        return match parse_string_at(s, i + lf.len()) {
            None => None,
            Some((name, j)) => {
                if s.len() - j >= 2 && s[j] == '}' && s[j + 1] == '}' {
                    Some((DirContent::File(FileInfo::new(chars_to_string(&name))), j + 2))
                } else {
                    None
                }
            },
        };
    }
    let lf = lit_symlink_c_vec();
    if eat_lit(s, i, &lf) {
        return match parse_string_at(s, i + lf.len()) {
            None => None,
            Some((name, j)) => {
                if s.len() - j >= 2 && s[j] == '}' && s[j + 1] == '}' {
                    Some((DirContent::Symlink(SymlinkInfo::new(chars_to_string(&name))), j + 2))
                } else {
                    None
                }
            },
        };
    }
    None
}

/// Reads a child list at `i`, exactly as the grammar's list reader does
/// with the remaining length as fuel.
fn parse_contents_at(s: &Vec<char>, i: usize) -> (r: Option<(Vec<DirContent>, usize)>)
    requires
        i <= s@.len(),
    ensures
        match r {
            Some(p) => dec_contents(s@, i as int, (s@.len() - i) as nat) == Some(
                (p.0@.map_values(|c: DirContent| c@), p.1 as int),
            ) && i < p.1 <= s@.len(),
            None => dec_contents(s@, i as int, (s@.len() - i) as nat) is None,
        },
    decreases s@.len() - i,
{
    if i < s.len() {
        if s[i] == ']' {
            let out: Vec<DirContent> = Vec::new();
            proof {
                assert(out@.map_values(|c: DirContent| c@) =~= Seq::<
                    crate::folder_info::DirContentModel,
                >::empty());
            }
            return Some((out, i + 1));
        }
    }
    match parse_content_at(s, i) {
        None => None,
        Some((m, j)) => {
            if j < s.len() && s[j] == ',' {
                match parse_contents_at(s, j + 1) {
                    None => {
                        proof {
                            lemma_dec_contents_fuel(
                                s@,
                                j + 1 as int,
                                (s@.len() - (j + 1)) as nat,
                                (s@.len() - i - 1) as nat,
                            );
                        }
                        None
                    },
                    Some((rest, k)) => {
                        let ghost rest_view = rest@.map_values(|c: DirContent| c@);
                        let mut out: Vec<DirContent> = Vec::new();
                        out.push(m);
                        let mut rest = rest;
                        out.append(&mut rest);
                        proof {
                            lemma_dec_contents_fuel(
                                s@,
                                j + 1 as int,
                                (s@.len() - (j + 1)) as nat,
                                (s@.len() - i - 1) as nat,
                            );
                            assert(out@.map_values(|c: DirContent| c@) =~= seq![m@] + rest_view);
                        }
                        Some((out, k))
                    },
                }
            } else if j < s.len() && s[j] == ']' {
                let mut out: Vec<DirContent> = Vec::new();
                out.push(m);
                proof {
                    assert(out@.map_values(|c: DirContent| c@) =~= seq![m@]);
                }
                Some((out, j + 1))
            } else {
                None
            }
        },
    }
}

/// Reads a byte list at `i`, exactly as the grammar's byte reader does with
/// the remaining length as fuel.
fn parse_byte_list_at(s: &Vec<char>, i: usize) -> (r: Option<(Vec<u8>, usize)>)
    requires
        i <= s@.len(),
    ensures
        match r {
            Some(p) => dec_byte_list(s@, i as int, (s@.len() - i) as nat) == Some(
                (p.0@, p.1 as int),
            ) && i < p.1 <= s@.len(),
            None => dec_byte_list(s@, i as int, (s@.len() - i) as nat) is None,
        },
    decreases s@.len() - i,
{
    if i < s.len() {
        if s[i] == ']' {
            let out: Vec<u8> = Vec::new();
            proof {
                assert(out@ =~= Seq::<u8>::empty());
            }
            return Some((out, i + 1));
        }
    }
    match parse_number_at(s, i) {
        None => None,
        Some((v, j)) => {
            if v > 255 {
                return None;
            }
            let b = v as u8;
            if j < s.len() && s[j] == ',' {
                match parse_byte_list_at(s, j + 1) {
                    None => {
                        proof {
                            lemma_dec_byte_list_fuel(
                                s@,
                                j + 1 as int,
                                (s@.len() - (j + 1)) as nat,
                                (s@.len() - i - 1) as nat,
                            );
                        }
                        None
                    },
                    Some((rest, k)) => {
                        let ghost rest_view = rest@;
                        let mut out: Vec<u8> = Vec::new();
                        out.push(b);
                        let mut rest = rest;
                        out.append(&mut rest);
                        proof {
                            lemma_dec_byte_list_fuel(
                                s@,
                                j + 1 as int,
                                (s@.len() - (j + 1)) as nat,
                                (s@.len() - i - 1) as nat,
                            );
                            assert(out@ =~= seq![b] + rest_view);
                        }
                        Some((out, k))
                    },
                }
            } else if j < s.len() && s[j] == ']' {
                let mut out: Vec<u8> = Vec::new();
                out.push(b);
                proof {
                    assert(out@ =~= seq![b]);
                }
                Some((out, j + 1))
            } else {
                None
            }
        },
    }
}

/// Reads one line back as a listing reply: exactly the id and listing whose
/// writing the line is, and nothing on any other line.
pub fn decode_response_directory(line: &str) -> (r: Option<Response<Directory>>)
    ensures
        match r {
            Some(resp) => dec_response_directory(line@) == Some((resp.to_id, resp.response@)),
            None => dec_response_directory(line@) is None,
        },
{
    let s = str_to_chars(line);
    let l1 = lit_to_id_vec();
    if !eat_lit(&s, 0, &l1) {
        return None;
    }
    match parse_number_at(&s, l1.len()) {
        None => None,
        Some((to_id, i1)) => {
            let l2 = lit_response_vec();
            if !eat_lit(&s, i1, &l2) {
                return None;
            }
            let i2 = i1 + l2.len();
            let l3 = lit_dir_path_vec();
            if !eat_lit(&s, i2, &l3) {
                return None;
            }
            match parse_string_at(&s, i2 + l3.len()) {
                None => None,
                Some((path_chars, i3)) => {
                    let l4 = lit_childs_vec();
                    if !eat_lit(&s, i3, &l4) {
                        return None;
                    }
                    match parse_contents_at(&s, i3 + l4.len()) {
                        None => {
                            proof {
                                lemma_dec_contents_fuel(
                                    s@,
                                    i3 + l4@.len() as int,
                                    (s@.len() - (i3 + l4@.len())) as nat,
                                    s@.len(),
                                );
                            }
                            None
                        },
                        Some((childs, i4)) => {
                            proof {
                                lemma_dec_contents_fuel(
                                    s@,
                                    i3 + l4@.len() as int,
                                    (s@.len() - (i3 + l4@.len())) as nat,
                                    s@.len(),
                                );
                            }
                            if i4 < s.len() && s[i4] == '}' {
                                let i5 = i4 + 1;
                                if s.len() - i5 == 1 && s[i5] == '}' {
                                    let path = chars_to_string(&path_chars);
                                    Some(Response { to_id, response: Directory { path, childs } })
                                } else {
                                    None
                                }
                            } else {
                                None
                            }
                        },
                    }
                },
            }
        },
    }
}

/// Reads one line back as a download reply: exactly the id and bytes whose
/// writing the line is, and nothing on any other line.
pub fn decode_response_bytes(line: &str) -> (r: Option<Response<Vec<u8>>>)
    ensures
        match r {
            Some(resp) => dec_response_bytes(line@) == Some((resp.to_id, resp.response@)),
            None => dec_response_bytes(line@) is None,
        },
{
    let s = str_to_chars(line);
    let l1 = lit_to_id_vec();
    if !eat_lit(&s, 0, &l1) {
        return None;
    }
    match parse_number_at(&s, l1.len()) {
        None => None,
        Some((to_id, i1)) => {
            let l2 = lit_response_vec();
            if !eat_lit(&s, i1, &l2) {
                return None;
            }
            let i2 = i1 + l2.len();
            if !(i2 < s.len() && s[i2] == '[') {
                return None;
            }
            match parse_byte_list_at(&s, i2 + 1) {
                None => {
                    proof {
                        lemma_dec_byte_list_fuel(
                            s@,
                            i2 + 1 as int,
                            (s@.len() - (i2 + 1)) as nat,
                            s@.len(),
                        );
                    }
                    None
                },
                Some((data, i3)) => {
                    proof {
                        lemma_dec_byte_list_fuel(
                            s@,
                            i2 + 1 as int,
                            (s@.len() - (i2 + 1)) as nat,
                            s@.len(),
                        );
                    }
                    if s.len() - i3 == 1 && s[i3] == '}' {
                        Some(Response { to_id, response: data })
                    } else {
                        None
                    }
                },
            }
        },
    }
}

} // verus!
