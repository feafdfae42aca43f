//! The Burmeister (`.cxt`) text format of formal contexts:
//!
//! ```text
//! B
//! <name>
//! <number of objects>
//! <number of attributes>
//!
//! <one object name per line>
//! <one attribute name per line>
//! <one row per object: 'X' or 'x' for a cross, '.' for none>
//! ```
//!
//! Lines end with `\n`; a `\r` before it is ignored.
use vstd::prelude::*;
use bit_set::BitSet;
use crate::bitset::members;
use crate::context::{ContextView, FormalContext};

verus! {

/// Why a text is not a context in the Burmeister format.
#[derive(Debug)]
pub enum CxtError {
    /// A count is not a number that fits in a `usize`.
    ParseError,
    /// The text does not have the layout of the format.
    InvalidFormat,
}

/// The lines of `s`, split at each `\n` (a text without newline is one line).
pub open spec fn split_lines(s: Seq<char>) -> Seq<Seq<char>>
    decreases s.len(),
{
    if s.len() == 0 {
        seq![Seq::empty()]
    } else {
        let ls = split_lines(s.drop_last());
        if s.last() == '\n' {
            ls.push(Seq::empty())
        } else {
            ls.update(ls.len() - 1, ls.last().push(s.last()))
        }
    }
}

/// A line without the `\r` that may end it.
pub open spec fn strip_cr(line: Seq<char>) -> Seq<char> {
    if line.len() > 0 && line.last() == '\r' { line.drop_last() } else { line }
}

/// The lines of `s`, each without a final `\r`.
pub open spec fn clean_lines(s: Seq<char>) -> Seq<Seq<char>> {
    split_lines(s).map_values(|l: Seq<char>| strip_cr(l))
}

pub open spec fn is_digit(c: char) -> bool {
    '0' <= c <= '9'
}

/// The number that a string of decimal digits denotes.
pub open spec fn digits_value(d: Seq<char>) -> nat
    decreases d.len(),
{
    if d.len() == 0 {
        0
    } else {
        digits_value(d.drop_last()) * 10 + ((d.last() as u32) - ('0' as u32)) as nat
    }
}

/// A count: one or more decimal digits denoting a number that fits in a `usize`.
pub open spec fn parse_count(line: Seq<char>) -> Option<nat> {
    if line.len() > 0 && (forall|i: int| 0 <= i < line.len() ==> is_digit(#[trigger] line[i])) && digits_value(line) <= usize::MAX {
        Some(digits_value(line))
    } else {
        None
    }
}

pub open spec fn is_cross_char(c: char) -> bool {
    c == 'X' || c == 'x'
}

/// A row for `m` attributes: exactly `m` characters, each a cross or `.`.
pub open spec fn valid_row(line: Seq<char>, m: nat) -> bool {
    line.len() == m && forall|j: int| 0 <= j < m ==> is_cross_char(#[trigger] line[j]) || line[j] == '.'
}

/// The attributes a row marks.
pub open spec fn row_crosses(line: Seq<char>) -> Set<usize> {
    Set::new(|j: usize| j < line.len() && is_cross_char(line[j as int]))
}

/// The line holding the row of object `i`.
pub open spec fn row_line(ls: Seq<Seq<char>>, n: nat, m: nat, i: int) -> Seq<char> {
    ls[5 + n + m + i]
}

/// The layout is right for `n` objects and `m` attributes.
pub open spec fn valid_layout(ls: Seq<Seq<char>>, n: nat, m: nat) -> bool {
    &&& ls[4].len() == 0
    &&& ls.len() >= 5 + 2 * n + m
    &&& forall|i: int| 0 <= i < n ==> valid_row(#[trigger] row_line(ls, n, m, i), m)
    &&& forall|i: int| 5 + 2 * n + m <= i < ls.len() ==> (#[trigger] ls[i]).len() == 0
}

/// The context the lines describe, when their layout is right.
pub open spec fn layout_context(ls: Seq<Seq<char>>, n: nat, m: nat) -> ContextView {
    ContextView {
        name: ls[1],
        objects: ls.subrange(5, 5 + n as int),
        attributes: ls.subrange(5 + n as int, 5 + n + m as int),
        rows: Seq::new(n, |i: int| row_crosses(row_line(ls, n, m, i))),
    }
}

/// What parsing the text `s` gives.
pub open spec fn parse_cxt(s: Seq<char>) -> Result<ContextView, CxtError> {
    let ls = clean_lines(s);
    if ls.len() < 5 || ls[0] != seq!['B'] {
        Err(CxtError::InvalidFormat)
    } else {
        match (parse_count(ls[2]), parse_count(ls[3])) {
            (Some(n), Some(m)) => if valid_layout(ls, n, m) {
                Ok(layout_context(ls, n, m))
            } else {
                Err(CxtError::InvalidFormat)
            },
            _ => Err(CxtError::ParseError),
        }
    }
}

/// `String::from_iter` over characters: the string of those characters.
#[verifier::external_body]
fn chars_to_string(v: &[char]) -> (r: String)
    ensures
        r@ == v@,
{
    v.iter().collect()
}

/// Splits a text into lines, dropping the `\r` that may end each.
fn lines_of(s: &Vec<char>) -> (r: Vec<Vec<char>>)
    ensures
        r@.map_values(|l: Vec<char>| l@) == clean_lines(s@),
{
    let mut done: Vec<Vec<char>> = Vec::new();
    let mut cur: Vec<char> = Vec::new();
    let mut k: usize = 0;
    while k < s.len()
        invariant
            k <= s@.len(),
            done@.map_values(|l: Vec<char>| l@).push(cur@) == split_lines(s@.take(k as int)),
        decreases s@.len() - k,
    {
        let ghost before = split_lines(s@.take(k as int));
        let ch = s[k];
        proof {
            assert(s@.take(k + 1).drop_last() =~= s@.take(k as int));
            assert(s@.take(k + 1).last() == ch);
        }
        if ch == '\n' {
            let mut line: Vec<char> = Vec::new();
            std::mem::swap(&mut line, &mut cur);
            let ghost dv = done@.map_values(|l: Vec<char>| l@);
            done.push(line);
            proof {
                assert(done@.map_values(|l: Vec<char>| l@) =~= dv.push(line@));
                assert(done@.map_values(|l: Vec<char>| l@).push(cur@) =~= before.push(Seq::empty()));
            }
        } else {
            let ghost dv = done@.map_values(|l: Vec<char>| l@);
            let ghost cv = cur@;
            cur.push(ch);
            proof {
                assert(dv.push(cur@) =~= before.update(before.len() - 1, before.last().push(ch)));
            }
        }
        k = k + 1;
    }
    done.push(cur);
    proof {
        assert(s@.take(s@.len() as int) =~= s@);
    }
    let mut out: Vec<Vec<char>> = Vec::new();
    let mut i: usize = 0;
    while i < done.len()
        invariant
            i <= done@.len(),
            done@.map_values(|l: Vec<char>| l@) == split_lines(s@),
            out@.len() == i,
            forall|j: int| 0 <= j < i ==> (#[trigger] out@[j])@ == strip_cr(done@[j]@),
        decreases done@.len() - i,
    {
        let line = &done[i];
        let mut c: Vec<char> = Vec::new();
        let mut len = line.len();
        if len > 0 && line[len - 1] == '\r' {
            len = len - 1;
        }
        let mut j: usize = 0;
        while j < len
            invariant
                j <= len <= line@.len(),
                c@ == line@.take(j as int),
            decreases len - j,
        {
            c.push(line[j]);
            j = j + 1;
            assert(c@ =~= line@.take(j as int));
        }
        proof {
            assert(c@ =~= strip_cr(line@));
        }
        out.push(c);
        i = i + 1;
    }
    proof {
        let ov = out@.map_values(|l: Vec<char>| l@);
        assert forall|j: int| 0 <= j < ov.len() implies ov[j] == clean_lines(s@)[j] by {
            assert(done@.map_values(|l: Vec<char>| l@)[j] == done@[j]@);
        }
        assert(ov =~= clean_lines(s@));
    }
    out
}

/// The count a line holds, if it holds one.
fn parse_count_exec(line: &Vec<char>) -> (r: Option<usize>)
    ensures
        match parse_count(line@) {
            Some(v) => r == Some(v as usize),
            None => r is None,
        },
{
    if line.len() == 0 {
        return None;
    }
    let mut val: usize = 0;
    let mut i: usize = 0;
    while i < line.len()
        invariant
            i <= line@.len(),
            line@.len() > 0,
            forall|k: int| 0 <= k < i ==> is_digit(#[trigger] line@[k]),
            val == digits_value(line@.take(i as int)),
        decreases line@.len() - i,
    {
        let ch = line[i];
        proof {
            assert(line@.take(i + 1).drop_last() =~= line@.take(i as int));
            assert(line@.take(i + 1).last() == ch);
        }
        if !('0' <= ch && ch <= '9') {
            proof {
                assert(!is_digit(line@[i as int]));
            }
            return None;
        }
        let d = (ch as u32 - '0' as u32) as usize;
        if val > (usize::MAX - d) / 10 {
            proof {
                lemma_digits_grow(line@, i as int + 1);
                assert(digits_value(line@.take(i + 1)) == val * 10 + d);
                assert(val * 10 + d > usize::MAX) by (nonlinear_arith)
                    requires val > (usize::MAX - d) / 10, d <= 9;
                assert(line@.take(line@.len() as int) =~= line@);
            }
            return None;
        }
        assert(val * 10 + d <= usize::MAX) by (nonlinear_arith)
            requires val <= (usize::MAX - d) / 10, d <= 9;
        val = val * 10 + d;
        i = i + 1;
    }
    proof {
        assert(line@.take(line@.len() as int) =~= line@);
    }
    Some(val)
}

/// Longer strings of digits denote no smaller numbers.
proof fn lemma_digits_grow(d: Seq<char>, k: int)
    requires
        0 <= k <= d.len(),
        forall|i: int| 0 <= i < k ==> is_digit(#[trigger] d[i]),
    ensures
        digits_value(d.take(k)) <= digits_value(d) || exists|i: int| k <= i < d.len() && !is_digit(#[trigger] d[i]),
    decreases d.len() - k,
{
    if k < d.len() && is_digit(d[k]) {
        lemma_digits_grow(d, k + 1);
        assert(d.take(k + 1).drop_last() =~= d.take(k));
    } else if k == d.len() {
        assert(d.take(k) =~= d);
    }
}


/// The characters of a string.
pub fn string_chars(s: &String) -> (r: Vec<char>)
    ensures
        r@ == s@,
{
    broadcast use vstd::string::axiom_spec_iter;

    let mut out: Vec<char> = Vec::new();
    for ch in it: s.as_str().chars()
        invariant
            it.seq() == s@,
            out@ == s@.take(it.index() as int),
    {
        out.push(ch);
    }
    assert(out@ =~= s@);
    out
}


/// The character of the decimal digit `d`.
pub open spec fn digit_char(d: nat) -> char {
    ((d + 48) as u8) as char
}

/// The decimal representation of `n`, without leading zeros.
pub open spec fn dec_digits(n: nat) -> Seq<char>
    decreases n,
{
    if n < 10 {
        seq![digit_char(n)]
    } else {
        dec_digits(n / 10).push(digit_char(n % 10))
    }
}

/// Each line followed by a newline.
pub open spec fn line_block(ls: Seq<Seq<char>>) -> Seq<char>
    decreases ls.len(),
{
    if ls.len() == 0 {
        Seq::empty()
    } else {
        line_block(ls.drop_last()) + ls.last() + seq!['\n']
    }
}

/// The row of a cross table: `X` where the object has the attribute, `.` elsewhere.
pub open spec fn row_text(r: Set<usize>, m: nat) -> Seq<char> {
    Seq::new(m, |j: int| if r.contains(j as usize) { 'X' } else { '.' })
}

/// The Burmeister text of a context.
pub open spec fn cxt_text(c: ContextView) -> Seq<char> {
    seq!['B', '\n'] + c.name + seq!['\n'] + dec_digits(c.n_obj()) + seq!['\n'] + dec_digits(c.n_attr()) + seq!['\n', '\n']
        + line_block(c.objects) + line_block(c.attributes)
        + line_block(Seq::new(c.n_obj(), |i: int| row_text(c.rows[i], c.n_attr())))
}

fn push_seq(out: &mut Vec<char>, v: &Vec<char>)
    ensures
        final(out)@ == old(out)@ + v@,
{
    let mut i: usize = 0;
    while i < v.len()
        invariant
            i <= v@.len(),
            out@ == old(out)@ + v@.take(i as int),
        decreases v@.len() - i,
    {
        out.push(v[i]);
        i = i + 1;
        assert(out@ =~= old(out)@ + v@.take(i as int));
    }
    assert(v@.take(v@.len() as int) =~= v@);
}

fn push_decimal(out: &mut Vec<char>, n: usize)
    ensures
        final(out)@ == old(out)@ + dec_digits(n as nat),
    decreases n,
{
    if n >= 10 {
        push_decimal(out, n / 10);
    }
    let d = (n % 10) as u8;
    out.push((d + 48) as char);
    proof {
        if n >= 10 {
            assert(final(out)@ =~= old(out)@ + dec_digits(n as nat));
        } else {
            assert(final(out)@ =~= old(out)@ + dec_digits(n as nat));
        }
    }
}

/// Appends each line of `ls`, followed by a newline.
fn push_lines(out: &mut Vec<char>, ls: &Vec<String>)
    ensures
        final(out)@ == old(out)@ + line_block(crate::names::label_views(ls@)),
{
    let ghost lv = crate::names::label_views(ls@);
    let mut i: usize = 0;
    while i < ls.len()
        invariant
            i <= ls@.len(),
            lv == crate::names::label_views(ls@),
            out@ == old(out)@ + line_block(lv.take(i as int)),
        decreases ls@.len() - i,
    {
        let cs = string_chars(&ls[i]);
        push_seq(out, &cs);
        out.push('\n');
        proof {
            assert(lv.take(i + 1).drop_last() =~= lv.take(i as int));
            assert(lv.take(i + 1).last() == ls@[i as int]@);
            assert(out@ =~= old(out)@ + line_block(lv.take(i + 1)));
        }
        i = i + 1;
    }
    assert(lv.take(ls@.len() as int) =~= lv);
}

impl FormalContext {
    /// The context in the Burmeister format.
    pub fn to_cxt(&self) -> (r: Vec<char>)
        requires
            self.wf(),
        ensures
            r@ == cxt_text(self@),
    {
        let ghost c = self@;
        let n = self.n_objects();
        let m = self.n_attributes();
        let mut out: Vec<char> = Vec::new();
        out.push('B');
        out.push('\n');
        let name = string_chars(self.name());
        push_seq(&mut out, &name);
        out.push('\n');
        push_decimal(&mut out, n);
        out.push('\n');
        push_decimal(&mut out, m);
        out.push('\n');
        out.push('\n');
        push_lines(&mut out, self.objects());
        push_lines(&mut out, self.attributes());
        let ghost head = out@;
        let ghost rows = Seq::new(c.n_obj(), |i: int| row_text(c.rows[i], c.n_attr()));
        let mut g: usize = 0;
        while g < n
            invariant
                self.wf(),
                c == self@,
                n == c.n_obj(),
                m == c.n_attr(),
                g <= n,
                rows == Seq::new(c.n_obj(), |i: int| row_text(c.rows[i], c.n_attr())),
                out@ == head + line_block(rows.take(g as int)),
            decreases n - g,
        {
            let row = self.row(g);
            let ghost before = out@;
            let mut j: usize = 0;
            while j < m
                invariant
                    j <= m,
                    m == c.n_attr(),
                    g < n,
                    members(*row) == c.rows[g as int],
                    out@ == before + row_text(c.rows[g as int], m as nat).take(j as int),
                decreases m - j,
            {
                if crate::bitset::bs_contains(row, j) {
                    out.push('X');
                } else {
                    out.push('.');
                }
                j = j + 1;
                assert(out@ =~= before + row_text(c.rows[g as int], m as nat).take(j as int));
            }
            out.push('\n');
            proof {
                assert(row_text(c.rows[g as int], m as nat).take(m as int) =~= row_text(c.rows[g as int], m as nat));
                assert(rows.take(g + 1).drop_last() =~= rows.take(g as int));
                assert(rows.take(g + 1).last() == row_text(c.rows[g as int], m as nat));
                assert(out@ =~= head + line_block(rows.take(g + 1)));
            }
            g = g + 1;
        }
        proof {
            assert(rows.take(n as int) =~= rows);
            assert(out@ =~= cxt_text(c));
        }
        out
    }

    /// Reads a context in the Burmeister format.
    pub fn from_cxt(text: &Vec<char>) -> (r: Result<FormalContext, CxtError>)
        ensures
            match parse_cxt(text@) {
                Ok(c) => r matches Ok(f) && f.wf() && f@ == c,
                Err(CxtError::ParseError) => r matches Err(CxtError::ParseError),
                Err(CxtError::InvalidFormat) => r matches Err(CxtError::InvalidFormat),
            },
    {
        let ls = lines_of(text);
        let ghost lv = ls@.map_values(|l: Vec<char>| l@);
        assert(lv == clean_lines(text@));
        if ls.len() < 5 || !(ls[0].len() == 1 && ls[0][0] == 'B') {
            proof {
                if ls@.len() >= 5 {
                    assert(lv[0] == ls@[0]@);
                    if lv[0] == seq!['B'] {
                        assert(ls@[0]@.len() == 1 && ls@[0]@[0] == 'B');
                    }
                }
            }
            return Err(CxtError::InvalidFormat);
        }
        proof {
            assert(lv[0] == ls@[0]@);
            assert(ls@[0]@ =~= seq!['B']);
            assert(lv[2] == ls@[2]@);
            assert(lv[3] == ls@[3]@);
            assert(lv[4] == ls@[4]@);
            assert(lv[1] == ls@[1]@);
        }
        let n = match parse_count_exec(&ls[2]) {
            Some(n) => n,
            None => return Err(CxtError::ParseError),
        };
        let m = match parse_count_exec(&ls[3]) {
            Some(m) => m,
            None => return Err(CxtError::ParseError),
        };
        let len = ls.len();
        if ls[4].len() != 0 || (5 + 2 * (n as u128) + (m as u128)) > len as u128 {
            proof {
                assert(parse_count(lv[2]) == Some(n as nat));
                assert(parse_count(lv[3]) == Some(m as nat));
                assert(!valid_layout(lv, n as nat, m as nat));
            }
            return Err(CxtError::InvalidFormat);
        }
        proof {
            assert(parse_count(lv[2]) == Some(n as nat));
            assert(parse_count(lv[3]) == Some(m as nat));
        }
        let first_row = 5 + n + m;
        let end = first_row + n;
        let mut i: usize = 0;
        while i < n
            invariant
                lv == ls@.map_values(|l: Vec<char>| l@),
                lv == clean_lines(text@),
                lv.len() >= 5,
                lv[0] == seq!['B'],
                parse_count(lv[2]) == Some(n as nat),
                parse_count(lv[3]) == Some(m as nat),
                first_row == 5 + n + m,
                end == first_row + n,
                end <= ls@.len(),
                i <= n,
                forall|k: int| 0 <= k < i ==> valid_row(#[trigger] row_line(lv, n as nat, m as nat, k), m as nat),
                lv.len() == ls@.len(),
            decreases n - i,
        {
            let line = &ls[first_row + i];
            proof { assert(row_line(lv, n as nat, m as nat, i as int) == line@); }
            if line.len() != m {
                proof {
                    assert(!valid_row(row_line(lv, n as nat, m as nat, i as int), m as nat));
                    assert(!valid_layout(lv, n as nat, m as nat));
                }
                return Err(CxtError::InvalidFormat);
            }
            let mut j: usize = 0;
            while j < m
                invariant
                    line@.len() == m,
                    j <= m,
                    forall|k: int| 0 <= k < j ==> is_cross_char(#[trigger] line@[k]) || line@[k] == '.',
                    lv == clean_lines(text@),
                    lv.len() >= 5,
                    lv[0] == seq!['B'],
                    parse_count(lv[2]) == Some(n as nat),
                    parse_count(lv[3]) == Some(m as nat),

                    row_line(lv, n as nat, m as nat, i as int) == line@,
                    i < n,
                decreases m - j,
            {
                let ch = line[j];
                if !(ch == 'X' || ch == 'x' || ch == '.') {
                    proof {
                        assert(!valid_row(row_line(lv, n as nat, m as nat, i as int), m as nat));
                        assert(!valid_layout(lv, n as nat, m as nat));
                    }
                    return Err(CxtError::InvalidFormat);
                }
                j = j + 1;
            }
            i = i + 1;
        }
        let mut i: usize = end;
        while i < len
            invariant
                lv == ls@.map_values(|l: Vec<char>| l@),
                lv == clean_lines(text@),
                lv.len() >= 5,
                lv[0] == seq!['B'],
                parse_count(lv[2]) == Some(n as nat),
                parse_count(lv[3]) == Some(m as nat),
                len == ls@.len(),
                end <= i <= len,
                forall|k: int| end <= k < i ==> (#[trigger] lv[k]).len() == 0,
                end == 5 + 2 * n + m,
            decreases len - i,
        {
            if ls[i].len() != 0 {
                proof {
                    assert(lv[i as int] == ls@[i as int]@);
                    assert(!valid_layout(lv, n as nat, m as nat));
                }
                return Err(CxtError::InvalidFormat);
            }
            proof { assert(lv[i as int] == ls@[i as int]@); }
            i = i + 1;
        }
        proof {
            assert(valid_layout(lv, n as nat, m as nat));
        }
        let name = chars_to_string(ls[1].as_slice());
        let mut objects: Vec<String> = Vec::new();
        let mut i: usize = 0;
        while i < n
            invariant
                lv == ls@.map_values(|l: Vec<char>| l@),
                lv == clean_lines(text@),
                lv.len() >= 5,
                lv[0] == seq!['B'],
                parse_count(lv[2]) == Some(n as nat),
                parse_count(lv[3]) == Some(m as nat),
                end == 5 + 2 * n + m,
                end <= ls@.len(),
                i <= n,
                objects@.len() == i,
                forall|k: int| 0 <= k < i ==> (#[trigger] objects@[k])@ == lv[5 + k],
            decreases n - i,
        {
            proof { assert(lv[5 + i] == ls@[5 + i]@); }
            objects.push(chars_to_string(ls[5 + i].as_slice()));
            i = i + 1;
        }
        let mut attributes: Vec<String> = Vec::new();
        let mut i: usize = 0;
        while i < m
            invariant
                lv == ls@.map_values(|l: Vec<char>| l@),
                lv == clean_lines(text@),
                lv.len() >= 5,
                lv[0] == seq!['B'],
                parse_count(lv[2]) == Some(n as nat),
                parse_count(lv[3]) == Some(m as nat),
                end == 5 + 2 * n + m,
                end <= ls@.len(),
                i <= m,
                attributes@.len() == i,
                forall|k: int| 0 <= k < i ==> (#[trigger] attributes@[k])@ == lv[5 + n + k],
            decreases m - i,
        {
            proof { assert(lv[5 + n + i] == ls@[5 + n + i]@); }
            attributes.push(chars_to_string(ls[5 + n + i].as_slice()));
            i = i + 1;
        }
        let mut incidence: Vec<BitSet> = Vec::new();
        let mut i: usize = 0;
        while i < n
            invariant
                lv == ls@.map_values(|l: Vec<char>| l@),
                lv == clean_lines(text@),
                lv.len() >= 5,
                lv[0] == seq!['B'],
                parse_count(lv[2]) == Some(n as nat),
                parse_count(lv[3]) == Some(m as nat),
                first_row == 5 + n + m,
                end == first_row + n,
                end <= ls@.len(),
                i <= n,
                incidence@.len() == i,
                forall|k: int| 0 <= k < n ==> valid_row(#[trigger] row_line(lv, n as nat, m as nat, k), m as nat),
                forall|k: int| 0 <= k < i ==> members(#[trigger] incidence@[k]) == row_crosses(row_line(lv, n as nat, m as nat, k)),
                forall|k: int| 0 <= k < i ==> members(#[trigger] incidence@[k]).subset_of(crate::bitset::below(m as nat)),
            decreases n - i,
        {
            let line = &ls[first_row + i];
            proof { assert(row_line(lv, n as nat, m as nat, i as int) == line@); }
            let mut bits = crate::bitset::bs_new();
            let mut j: usize = 0;
            while j < m
                invariant
                    line@.len() == m,
                    m < usize::MAX,
                    j <= m,
                    members(bits) == row_crosses(line@).intersect(crate::bitset::below(j as nat)),
                decreases m - j,
            {
                let ch = line[j];
                if ch == 'X' || ch == 'x' {
                    crate::bitset::bs_insert(&mut bits, j);
                }
                j = j + 1;
                assert(members(bits) =~= row_crosses(line@).intersect(crate::bitset::below(j as nat)));
            }
            proof {
                assert(members(bits) =~= row_crosses(line@));
            }
            incidence.push(bits);
            i = i + 1;
        }
        let f = FormalContext::from_parts(name, objects, attributes, incidence);
        proof {
            let want = layout_context(lv, n as nat, m as nat);
            assert(f@.objects =~= want.objects);
            assert(f@.attributes =~= want.attributes);
            assert(f@.rows =~= want.rows);
        }
        Ok(f)
    }
}


/// A line that survives being written and read back: no newline in it, and no
/// carriage return at its end.
pub open spec fn plain_line(l: Seq<char>) -> bool {
    &&& forall|i: int| 0 <= i < l.len() ==> #[trigger] l[i] != '\n'
    &&& !(l.len() > 0 && l.last() == '\r')
}

/// Every name of the context is a plain line.
pub open spec fn plain_names(c: ContextView) -> bool {
    &&& plain_line(c.name)
    &&& forall|i: int| 0 <= i < c.objects.len() ==> plain_line(#[trigger] c.objects[i])
    &&& forall|i: int| 0 <= i < c.attributes.len() ==> plain_line(#[trigger] c.attributes[i])
}

/// The text holds no newline.
pub open spec fn no_newline(l: Seq<char>) -> bool {
    forall|i: int| 0 <= i < l.len() ==> #[trigger] l[i] != '\n'
}

/// The lines of the Burmeister text of `c`.
pub open spec fn cxt_lines(c: ContextView) -> Seq<Seq<char>> {
    seq![seq!['B'], c.name, dec_digits(c.n_obj()), dec_digits(c.n_attr()), Seq::empty()]
        + c.objects + c.attributes + Seq::new(c.n_obj(), |i: int| row_text(c.rows[i], c.n_attr()))
}

proof fn lemma_split_push(s: Seq<char>, ch: char)
    ensures
        split_lines(s.push(ch)) == if ch == '\n' {
            split_lines(s).push(Seq::empty())
        } else {
            split_lines(s).update(split_lines(s).len() - 1, split_lines(s).last().push(ch))
        },
{
    assert(s.push(ch).drop_last() =~= s);
}

proof fn lemma_split_lines_nonempty(s: Seq<char>)
    ensures
        split_lines(s).len() >= 1,
    decreases s.len(),
{
    if s.len() > 0 {
        lemma_split_lines_nonempty(s.drop_last());
    }
}

/// Appending text without a newline extends the last line.
proof fn lemma_split_append_line(s: Seq<char>, t: Seq<char>)
    requires
        forall|i: int| 0 <= i < t.len() ==> #[trigger] t[i] != '\n',
    ensures
        split_lines(s + t) == split_lines(s).update(split_lines(s).len() - 1, split_lines(s).last() + t),
    decreases t.len(),
{
    lemma_split_lines_nonempty(s);
    if t.len() == 0 {
        assert(s + t =~= s);
        assert(split_lines(s).last() + t =~= split_lines(s).last());
        assert(split_lines(s).update(split_lines(s).len() - 1, split_lines(s).last()) =~= split_lines(s));
    } else {
        let t0 = t.drop_last();
        lemma_split_append_line(s, t0);
        assert(s + t =~= (s + t0).push(t.last()));
        assert(t.last() != '\n');
        lemma_split_push(s + t0, t.last());
        let ls = split_lines(s);
        let x = ls.update(ls.len() - 1, ls.last() + t0);
        assert(x.last() == ls.last() + t0);
        assert((ls.last() + t0).push(t.last()) =~= ls.last() + t);
        assert(x.update(x.len() - 1, x.last().push(t.last())) =~= ls.update(ls.len() - 1, ls.last() + t));
    }
}

/// Writing lines each followed by a newline and splitting gives them back,
/// followed by an empty last line.
proof fn lemma_split_block(ls: Seq<Seq<char>>)
    requires
        forall|k: int| 0 <= k < ls.len() ==> no_newline(#[trigger] ls[k]),
    ensures
        split_lines(line_block(ls)) == ls.push(Seq::empty()),
    decreases ls.len(),
{
    if ls.len() == 0 {
        assert(split_lines(Seq::<char>::empty()) =~= seq![Seq::<char>::empty()]);
        assert(ls.push(Seq::empty()) =~= seq![Seq::<char>::empty()]);
    } else {
        let l0 = ls.drop_last();
        let l = ls.last();
        lemma_split_block(l0);
        assert(no_newline(ls[ls.len() - 1]));
        assert forall|k: int| 0 <= k < l0.len() implies no_newline(#[trigger] l0[k]) by {
            assert(l0[k] == ls[k]);
        }
        lemma_split_append_line(line_block(l0), l);
        let p = split_lines(line_block(l0) + l);
        assert(p =~= l0.push(l));
        assert(line_block(ls) =~= (line_block(l0) + l).push('\n'));
        lemma_split_push(line_block(l0) + l, '\n');
        assert(split_lines(line_block(ls)) =~= ls.push(Seq::empty()));
    }
}

proof fn lemma_line_block_concat(a: Seq<Seq<char>>, b: Seq<Seq<char>>)
    ensures
        line_block(a + b) == line_block(a) + line_block(b),
    decreases b.len(),
{
    if b.len() == 0 {
        assert(a + b =~= a);
        assert(line_block(a) + line_block(b) =~= line_block(a));
    } else {
        lemma_line_block_concat(a, b.drop_last());
        assert((a + b).drop_last() =~= a + b.drop_last());
        assert((a + b).last() == b.last());
        assert(line_block(a + b) =~= line_block(a) + line_block(b));
    }
}

proof fn lemma_dec_digits(n: nat)
    ensures
        dec_digits(n).len() > 0,
        forall|i: int| 0 <= i < dec_digits(n).len() ==> is_digit(#[trigger] dec_digits(n)[i]),
        digits_value(dec_digits(n)) == n,
    decreases n,
{
    if n >= 10 {
        lemma_dec_digits(n / 10);
        let d = dec_digits(n);
        assert(d.drop_last() =~= dec_digits(n / 10));
        assert forall|i: int| 0 <= i < d.len() implies is_digit(#[trigger] d[i]) by {
            if i < d.len() - 1 {
                assert(d[i] == dec_digits(n / 10)[i]);
            } else {
                assert(d[i] == digit_char(n % 10));
                assert(((n % 10 + 48) as u8) as char == digit_char(n % 10));
            }
        }
        assert(digits_value(d) == digits_value(dec_digits(n / 10)) * 10 + ((d.last() as u32) - ('0' as u32)) as nat);
        assert((digit_char(n % 10) as u32) == n % 10 + 48);
        assert(d.last() == digit_char(n % 10));
        assert(digits_value(d.drop_last()) == n / 10);
        assert((n / 10) * 10 + n % 10 == n) by (nonlinear_arith);
    } else {
        let d = dec_digits(n);
        assert(d.drop_last() =~= Seq::<char>::empty());
        assert(digits_value(d.drop_last()) == 0);
        assert(d.last() == digit_char(n));
        assert((digit_char(n) as u32) == n + 48);
    }
}

proof fn lemma_dec_plain(n: nat)
    ensures
        plain_line(dec_digits(n)),
{
    lemma_dec_digits(n);
    let d = dec_digits(n);
    assert forall|i: int| 0 <= i < d.len() implies #[trigger] d[i] != '\n' by {
        assert(is_digit(d[i]));
    }
    assert(is_digit(d[d.len() - 1]));
}

proof fn lemma_line_block_push(ls: Seq<Seq<char>>, l: Seq<char>)
    ensures
        line_block(ls.push(l)) == line_block(ls) + l + seq!['\n'],
{
    assert(ls.push(l).drop_last() =~= ls);
}

/// The Burmeister text of `c` is the block of its lines.
proof fn lemma_cxt_text_lines(c: ContextView)
    ensures
        cxt_text(c) == line_block(cxt_lines(c)),
{
    let n = c.n_obj();
    let m = c.n_attr();
    let rows = Seq::new(n, |i: int| row_text(c.rows[i], m));
    let head: Seq<Seq<char>> = seq![seq!['B'], c.name, dec_digits(n), dec_digits(m), Seq::empty()];
    assert(cxt_lines(c) =~= head + c.objects + c.attributes + rows);
    lemma_line_block_concat(head, c.objects);
    lemma_line_block_concat(head + c.objects, c.attributes);
    lemma_line_block_concat(head + c.objects + c.attributes, rows);
    let h0: Seq<Seq<char>> = Seq::empty();
    let h1 = h0.push(seq!['B']);
    let h2 = h1.push(c.name);
    let h3 = h2.push(dec_digits(n));
    let h4 = h3.push(dec_digits(m));
    let h5 = h4.push(Seq::<char>::empty());
    assert(h5 =~= head);
    lemma_line_block_push(h0, seq!['B']);
    lemma_line_block_push(h1, c.name);
    lemma_line_block_push(h2, dec_digits(n));
    lemma_line_block_push(h3, dec_digits(m));
    lemma_line_block_push(h4, Seq::<char>::empty());
    assert(line_block(h0) == Seq::<char>::empty());
    assert(line_block(head) =~= seq!['B', '\n'] + c.name + seq!['\n'] + dec_digits(n) + seq!['\n'] + dec_digits(m) + seq!['\n', '\n']);
    assert(cxt_text(c) =~= line_block(cxt_lines(c)));
}

/// Every line of the text of a context with plain names is plain.
proof fn lemma_cxt_lines_plain(c: ContextView)
    requires
        plain_names(c),
    ensures
        forall|k: int| 0 <= k < cxt_lines(c).len() ==> plain_line(#[trigger] cxt_lines(c)[k]),
{
    let n = c.n_obj();
    let m = c.n_attr();
    let all = cxt_lines(c);
    lemma_dec_plain(n);
    lemma_dec_plain(m);
    assert forall|k: int| 0 <= k < all.len() implies plain_line(#[trigger] all[k]) by {
        if k < 5 {
            assert(plain_line(seq!['B']));
            assert(plain_line(Seq::<char>::empty()));
        } else if k < 5 + n {
            assert(all[k] == c.objects[k - 5]);
        } else if k < 5 + n + m {
            assert(all[k] == c.attributes[k - 5 - n]);
        } else {
            let r = row_text(c.rows[k - 5 - n - m], m);
            assert(all[k] == r);
            assert forall|i: int| 0 <= i < r.len() implies #[trigger] r[i] != '\n' by {}
        }
    }
}

/// Reading back the text of a context with plain names gives its lines and a
/// last, empty line.
proof fn lemma_cxt_clean_lines(c: ContextView)
    requires
        plain_names(c),
    ensures
        clean_lines(cxt_text(c)) == cxt_lines(c).push(Seq::empty()),
{
    let all = cxt_lines(c);
    lemma_cxt_text_lines(c);
    lemma_cxt_lines_plain(c);
    assert forall|k: int| 0 <= k < all.len() implies no_newline(#[trigger] all[k]) by {
        assert(plain_line(all[k]));
    }
    lemma_split_block(all);
    let ls = clean_lines(cxt_text(c));
    assert forall|k: int| 0 <= k < ls.len() implies ls[k] == all.push(Seq::empty())[k] by {
        if k < all.len() {
            assert(plain_line(all[k]));
        }
    }
    assert(ls =~= all.push(Seq::empty()));
}

/// A context written in the Burmeister format and read back is the same
/// context, as long as none of its names holds a newline or ends with a
/// carriage return.
pub proof fn law_cxt_roundtrip(c: ContextView)
    requires
        c.wf(),
        plain_names(c),
    ensures
        parse_cxt(cxt_text(c)) == Ok::<ContextView, CxtError>(c),
{
    let n = c.n_obj();
    let m = c.n_attr();
    let rows = Seq::new(n, |i: int| row_text(c.rows[i], m));
    lemma_cxt_clean_lines(c);
    lemma_dec_digits(n);
    lemma_dec_digits(m);
    let ls = clean_lines(cxt_text(c));
    let all = cxt_lines(c);
    assert(ls[0] =~= seq!['B']);
    assert(ls[2] == dec_digits(n));
    assert(ls[3] == dec_digits(m));
    assert(parse_count(ls[2]) == Some(n));
    assert(parse_count(ls[3]) == Some(m));
    assert forall|i: int| 0 <= i < n implies valid_row(#[trigger] row_line(ls, n, m, i), m) by {
        assert(row_line(ls, n, m, i) == all[5 + n + m + i]);
        assert(all[5 + n + m + i] == rows[i]);
    }
    assert forall|i: int| 5 + 2 * n + m <= i < ls.len() implies (#[trigger] ls[i]).len() == 0 by {}
    assert(valid_layout(ls, n, m));
    let got = layout_context(ls, n, m);
    assert(got.objects =~= c.objects) by {
        assert forall|i: int| 0 <= i < n implies got.objects[i] == c.objects[i] by {
            assert(got.objects[i] == ls[5 + i]);
            assert(ls[5 + i] == all[5 + i]);
        }
    }
    assert(got.attributes =~= c.attributes) by {
        assert forall|i: int| 0 <= i < m implies got.attributes[i] == c.attributes[i] by {
            assert(got.attributes[i] == ls[5 + n + i]);
            assert(ls[5 + n + i] == all[5 + n + i]);
        }
    }
    assert forall|i: int| 0 <= i < n implies #[trigger] got.rows[i] == c.rows[i] by {
        assert(row_line(ls, n, m, i) == all[5 + n + m + i]);
        assert(all[5 + n + m + i] == rows[i]);
        assert(c.rows[i].subset_of(crate::bitset::below(m)));
        assert(row_crosses(rows[i]) =~= c.rows[i]);
    }
    assert(got.rows =~= c.rows);
    assert(got.name == c.name);
}

/// The lines of the Burmeister text of a context with plain names, read
/// without the text's final newline, are exactly the context's lines.
proof fn lemma_cxt_clean_lines_without_final_newline(c: ContextView)
    requires
        plain_names(c),
    ensures
        cxt_text(c).len() > 0,
        cxt_text(c).last() == '\n',
        clean_lines(cxt_text(c).drop_last()) == cxt_lines(c),
{
    let all = cxt_lines(c);
    lemma_cxt_text_lines(c);
    lemma_cxt_lines_plain(c);
    let front = all.drop_last();
    let l = all.last();
    assert(all =~= front.push(l));
    lemma_line_block_push(front, l);
    assert(cxt_text(c) =~= line_block(front) + l + seq!['\n']);
    assert(cxt_text(c).drop_last() =~= line_block(front) + l);
    assert forall|k: int| 0 <= k < front.len() implies no_newline(#[trigger] front[k]) by {
        assert(front[k] == all[k]);
        assert(plain_line(all[k]));
    }
    assert(plain_line(all[all.len() - 1]));
    lemma_split_block(front);
    lemma_split_append_line(line_block(front), l);
    let sl = split_lines(cxt_text(c).drop_last());
    assert(sl =~= all);
    let ls = clean_lines(cxt_text(c).drop_last());
    assert forall|k: int| 0 <= k < ls.len() implies ls[k] == all[k] by {
        assert(plain_line(all[k]));
    }
    assert(ls =~= all);
}

/// The final newline of a Burmeister text may be left out: the text of a
/// context with plain names, without its last character, still reads back
/// as that context.
pub proof fn law_cxt_final_newline_optional(c: ContextView)
    requires
        c.wf(),
        plain_names(c),
    ensures
        parse_cxt(cxt_text(c).drop_last()) == Ok::<ContextView, CxtError>(c),
{
    let n = c.n_obj();
    let m = c.n_attr();
    let rows = Seq::new(n, |i: int| row_text(c.rows[i], m));
    lemma_cxt_clean_lines_without_final_newline(c);
    lemma_dec_digits(n);
    lemma_dec_digits(m);
    let ls = clean_lines(cxt_text(c).drop_last());
    let all = cxt_lines(c);
    assert(ls == all);
    assert(ls.len() == 5 + 2 * n + m);
    assert(ls[0] =~= seq!['B']);
    assert(ls[2] == dec_digits(n));
    assert(ls[3] == dec_digits(m));
    assert(parse_count(ls[2]) == Some(n));
    assert(parse_count(ls[3]) == Some(m));
    assert forall|i: int| 0 <= i < n implies valid_row(#[trigger] row_line(ls, n, m, i), m) by {
        assert(row_line(ls, n, m, i) == all[5 + n + m + i]);
        assert(all[5 + n + m + i] == rows[i]);
    }
    assert(valid_layout(ls, n, m));
    let got = layout_context(ls, n, m);
    assert(got.objects =~= c.objects) by {
        assert forall|i: int| 0 <= i < n implies got.objects[i] == c.objects[i] by {
            assert(got.objects[i] == ls[5 + i]);
            assert(ls[5 + i] == all[5 + i]);
        }
    }
    assert(got.attributes =~= c.attributes) by {
        assert forall|i: int| 0 <= i < m implies got.attributes[i] == c.attributes[i] by {
            assert(got.attributes[i] == ls[5 + n + i]);
            assert(ls[5 + n + i] == all[5 + n + i]);
        }
    }
    assert forall|i: int| 0 <= i < n implies #[trigger] got.rows[i] == c.rows[i] by {
        assert(row_line(ls, n, m, i) == all[5 + n + m + i]);
        assert(all[5 + n + m + i] == rows[i]);
        assert(c.rows[i].subset_of(crate::bitset::below(m)));
        assert(row_crosses(rows[i]) =~= c.rows[i]);
    }
    assert(got.rows =~= c.rows);
    assert(got.name == c.name);
}

/// A newline added after a text that reads as a context changes nothing:
/// the text still reads as the same context.
pub proof fn law_cxt_extra_newline(t: Seq<char>, c: ContextView)
    requires
        parse_cxt(t) == Ok::<ContextView, CxtError>(c),
    ensures
        parse_cxt(t.push('\n')) == Ok::<ContextView, CxtError>(c),
{
    lemma_split_push(t, '\n');
    let ls = clean_lines(t);
    let ls2 = clean_lines(t.push('\n'));
    assert(ls2 =~= ls.push(Seq::empty())) by {
        assert(strip_cr(Seq::<char>::empty()) =~= Seq::<char>::empty());
    }
    assert(ls2[0] == ls[0]);
    assert(ls2[2] == ls[2]);
    assert(ls2[3] == ls[3]);
    let n = parse_count(ls[2])->Some_0;
    let m = parse_count(ls[3])->Some_0;
    assert(ls2[4] == ls[4]);
    assert forall|i: int| 0 <= i < n implies valid_row(#[trigger] row_line(ls2, n, m, i), m) by {
        assert(row_line(ls2, n, m, i) == row_line(ls, n, m, i));
        assert(valid_row(row_line(ls, n, m, i), m));
    }
    assert forall|i: int| 5 + 2 * n + m <= i < ls2.len() implies (#[trigger] ls2[i]).len() == 0 by {
        if i < ls.len() {
            assert(ls2[i] == ls[i]);
        }
    }
    assert(valid_layout(ls2, n, m));
    let a = layout_context(ls, n, m);
    let b = layout_context(ls2, n, m);
    assert(a.objects =~= b.objects);
    assert(a.attributes =~= b.attributes);
    assert(a.rows =~= b.rows) by {
        assert forall|i: int| 0 <= i < n implies #[trigger] a.rows[i] == b.rows[i] by {
            assert(row_line(ls2, n, m, i) == row_line(ls, n, m, i));
        }
    }
}

} // verus!
