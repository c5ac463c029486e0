//! The text formats in which graphs and source lists are written.
//!
//! A graph is written as a first line `n m` followed by one line `u v w` for
//! each edge. A source list is written as a first line `k` followed by one
//! line `s d0` for each source, where `d0` may be left out. Fields are
//! separated by white space, numbers are decimal, and blank lines are passed
//! over.

use vstd::prelude::*;
use crate::graph::{Adjacency, Graph, Node, Weight, with_edge};

verus! {

/// Why a text could not be read.
#[derive(Clone, Copy, Debug, PartialEq, Eq)]
pub enum TextError {
    /// A line ends before all the fields that it must hold.
    MissingField,
    /// A field that must hold a number holds none that fits its type.
    InvalidNumber,
    /// An edge leaves a vertex that the graph does not have.
    VertexOutOfRange,
}

/// A character of white space: one with the Unicode property of that
/// name. These are the space, the controls from the tabulator to the
/// carriage return, the next-line control, and the spaces and separators of
/// the wider planes.
pub open spec fn is_white_space(c: char) -> bool {
    let x = c as u32;
    ||| x == 0x20
    ||| (0x09 <= x && x <= 0x0d)
    ||| x == 0x85
    ||| x == 0xa0
    ||| x == 0x1680
    ||| (0x2000 <= x && x <= 0x200a)
    ||| x == 0x2028
    ||| x == 0x2029
    ||| x == 0x202f
    ||| x == 0x205f
    ||| x == 0x3000
}

/// A decimal digit.
pub open spec fn is_digit(c: char) -> bool {
    0x30 <= c as u32 && c as u32 <= 0x39
}

/// The lines of a text: the pieces into which the line feeds cut it. A text
/// that ends in a line feed has an empty last line.
pub open spec fn lines(text: Seq<char>) -> Seq<Seq<char>>
    decreases text.len(),
{
    if text.len() == 0 {
        seq![Seq::<char>::empty()]
    } else {
        let before = lines(text.drop_last());
        if text.last() == '\n' {
            before.push(Seq::<char>::empty())
        } else {
            before.drop_last().push(before.last().push(text.last()))
        }
    }
}

/// The fields that a line has been found to hold once all of it has been
/// read from left to right: those that white space has closed, and the one
/// that is still open, which is empty after white space.
pub open spec fn scan(line: Seq<char>) -> (Seq<Seq<char>>, Seq<char>)
    decreases line.len(),
{
    if line.len() == 0 {
        (Seq::<Seq<char>>::empty(), Seq::<char>::empty())
    } else {
        let (closed, open) = scan(line.drop_last());
        if !is_white_space(line.last()) {
            (closed, open.push(line.last()))
        } else if open.len() > 0 {
            (closed.push(open), Seq::<char>::empty())
        } else {
            (closed, open)
        }
    }
}

/// The fields of a line: its longest runs of characters that are not white
/// space, in their order.
pub open spec fn fields(line: Seq<char>) -> Seq<Seq<char>> {
    let (closed, open) = scan(line);
    if open.len() > 0 {
        closed.push(open)
    } else {
        closed
    }
}

/// The number that a run of digits writes.
pub open spec fn digits_value(digits: Seq<char>) -> nat
    decreases digits.len(),
{
    if digits.len() == 0 {
        0
    } else {
        digits_value(digits.drop_last()) * 10 + (digits.last() as u32 - 0x30) as nat
    }
}

/// Every character is a digit.
pub open spec fn all_digits(digits: Seq<char>) -> bool {
    forall|i: int| 0 <= i < digits.len() ==> is_digit(#[trigger] digits[i])
}

/// The digits of a field: the field without the plus sign that may stand
/// before them.
pub open spec fn unsigned(field: Seq<char>) -> Seq<char> {
    if field.len() > 0 && field[0] == '+' {
        field.drop_first()
    } else {
        field
    }
}

/// The number that a field holds: one or more digits, a plus sign before
/// them or none, and a value of at most `max`.
pub open spec fn number(field: Seq<char>, max: nat) -> Option<nat> {
    let digits = unsigned(field);
    if digits.len() > 0 && all_digits(digits) && digits_value(digits) <= max {
        Some(digits_value(digits))
    } else {
        None
    }
}

/// The number of vertices that a first line gives: the number in its first
/// field, and zero where there is none.
pub open spec fn count_of_header(line: Seq<char>) -> nat {
    if fields(line).len() > 0 {
        match number(fields(line)[0], usize::MAX as nat) {
            Some(n) => n,
            None => 0,
        }
    } else {
        0
    }
}

/// The edge that a line gives: none for a blank line, and else the source,
/// the destination and the weight from its first three fields. Further
/// fields count for nothing. The first field in the line's order that is
/// missing, or is no number, makes the error.
pub open spec fn edge_of_line(line: Seq<char>) -> Result<Option<(Node, Node, Weight)>, TextError> {
    let f = fields(line);
    if f.len() == 0 {
        Ok(None)
    } else if number(f[0], usize::MAX as nat) is None {
        Err(TextError::InvalidNumber)
    } else if f.len() < 2 {
        Err(TextError::MissingField)
    } else if number(f[1], usize::MAX as nat) is None {
        Err(TextError::InvalidNumber)
    } else if f.len() < 3 {
        Err(TextError::MissingField)
    } else if number(f[2], u64::MAX as nat) is None {
        Err(TextError::InvalidNumber)
    } else {
        Ok(
            Some(
                (
                    number(f[0], usize::MAX as nat).unwrap() as Node,
                    number(f[1], usize::MAX as nat).unwrap() as Node,
                    number(f[2], u64::MAX as nat).unwrap() as Weight,
                ),
            ),
        )
    }
}

/// The graph of `n` vertices that the edge lines give, each edge appended in
/// the order of the lines. The first line that gives no edge though it is not
/// blank, or gives an edge that leaves a vertex outside the graph, makes the
/// error. Where an edge ends is not looked at.
pub open spec fn graph_of_lines(n: nat, edge_lines: Seq<Seq<char>>) -> Result<Adjacency, TextError>
    decreases edge_lines.len(),
{
    if edge_lines.len() == 0 {
        Ok(Seq::new(n, |u: int| Seq::<(Node, Weight)>::empty()))
    } else {
        match graph_of_lines(n, edge_lines.drop_last()) {
            Err(e) => Err(e),
            Ok(adj) => match edge_of_line(edge_lines.last()) {
                Err(e) => Err(e),
                Ok(None) => Ok(adj),
                Ok(Some((u, v, w))) => if u < n {
                    Ok(with_edge(adj, u, v, w))
                } else {
                    Err(TextError::VertexOutOfRange)
                },
            },
        }
    }
}

/// The graph that a text gives: its first line gives the number of
/// vertices, the lines after it the edges.
pub open spec fn graph_of_text(text: Seq<char>) -> Result<Adjacency, TextError> {
    graph_of_lines(count_of_header(lines(text)[0]), lines(text).skip(1))
}

/// The source that a line gives: none for a blank line, and else the vertex
/// from its first field with the initial distance from its second, which is
/// zero where that field is missing or is no number.
pub open spec fn source_of_line(line: Seq<char>) -> Result<Option<(Node, Weight)>, TextError> {
    let f = fields(line);
    if f.len() == 0 {
        Ok(None)
    } else if number(f[0], usize::MAX as nat) is None {
        Err(TextError::InvalidNumber)
    } else {
        let s = number(f[0], usize::MAX as nat).unwrap() as Node;
        if f.len() >= 2 && number(f[1], u64::MAX as nat) is Some {
            Ok(Some((s, number(f[1], u64::MAX as nat).unwrap() as Weight)))
        } else {
            Ok(Some((s, 0)))
        }
    }
}

/// The sources that the source lines give, in the order of the lines. The
/// first line whose first field is no number makes the error.
pub open spec fn sources_of_lines(source_lines: Seq<Seq<char>>) -> Result<
    Seq<(Node, Weight)>,
    TextError,
>
    decreases source_lines.len(),
{
    if source_lines.len() == 0 {
        Ok(Seq::<(Node, Weight)>::empty())
    } else {
        match sources_of_lines(source_lines.drop_last()) {
            Err(e) => Err(e),
            Ok(sources) => match source_of_line(source_lines.last()) {
                Err(e) => Err(e),
                Ok(None) => Ok(sources),
                Ok(Some(source)) => Ok(sources.push(source)),
            },
        }
    }
}

/// The sources that a text gives: those of the lines after the first. The
/// count in the first line is not looked at.
pub open spec fn sources_of_text(text: Seq<char>) -> Result<Seq<(Node, Weight)>, TextError> {
    sources_of_lines(lines(text).skip(1))
}

/// The character sequences that the vectors hold.
pub open spec fn contents(v: Seq<Vec<char>>) -> Seq<Seq<char>> {
    Seq::new(v.len(), |i: int| v[i]@)
}

/// A text has at least one line.
pub proof fn lemma_lines_nonempty(text: Seq<char>)
    ensures
        lines(text).len() >= 1,
    decreases text.len(),
{
    if text.len() > 0 {
        lemma_lines_nonempty(text.drop_last());
    }
}

/// A number written with more digits is no smaller.
proof fn lemma_digits_value_grows(digits: Seq<char>, k: int)
    requires
        0 <= k <= digits.len(),
        all_digits(digits),
    ensures
        digits_value(digits.take(k)) <= digits_value(digits),
    decreases digits.len() - k,
{
    if k < digits.len() {
        lemma_digits_value_grows(digits, k + 1);
        assert(digits.take(k + 1).drop_last() =~= digits.take(k));
        assert(is_digit(digits[k]));
    } else {
        assert(digits.take(k) =~= digits);
    }
}

/// Decides `is_white_space`.
pub fn white_space(c: char) -> (r: bool)
    ensures
        r == is_white_space(c),
{
    let x = c as u32;
    x == 0x20 || (0x09 <= x && x <= 0x0d) || x == 0x85 || x == 0xa0 || x == 0x1680 || (0x2000 <= x
        && x <= 0x200a) || x == 0x2028 || x == 0x2029 || x == 0x202f || x == 0x205f || x
        == 0x3000
}

/// Cuts a text into its lines.
pub fn split_lines(text: &[char]) -> (r: Vec<Vec<char>>)
    ensures
        contents(r@) == lines(text@),
{
    let mut done: Vec<Vec<char>> = Vec::new();
    let mut cur: Vec<char> = Vec::new();
    let mut i: usize = 0;
    assert(text@.take(0) =~= Seq::<char>::empty());
    assert(contents(done@).push(cur@) =~= seq![Seq::<char>::empty()]);
    while i < text.len()
        invariant
            i <= text.len(),
            contents(done@).push(cur@) == lines(text@.take(i as int)),
        decreases text.len() - i,
    {
        let b = text[i];
        let ghost before = lines(text@.take(i as int));
        let ghost closed = contents(done@);
        let ghost open = cur@;
        proof {
            assert(text@.take(i + 1).drop_last() =~= text@.take(i as int));
            assert(before.drop_last() =~= closed);
            assert(before.last() == open);
        }
        if b == '\n' {
            done.push(cur);
            cur = Vec::new();
            assert(contents(done@).push(cur@) =~= before.push(Seq::<char>::empty()));
        } else {
            cur.push(b);
            assert(contents(done@).push(cur@) =~= before.drop_last().push(open.push(b)));
        }
        i = i + 1;
    }
    assert(text@.take(text@.len() as int) =~= text@);
    let ghost closed = contents(done@);
    done.push(cur);
    assert(contents(done@) =~= closed.push(cur@));
    done
}

/// Cuts a line into its fields.
pub fn split_fields(line: &[char]) -> (r: Vec<Vec<char>>)
    ensures
        contents(r@) == fields(line@),
{
    let mut done: Vec<Vec<char>> = Vec::new();
    let mut cur: Vec<char> = Vec::new();
    let mut i: usize = 0;
    assert(line@.take(0) =~= Seq::<char>::empty());
    assert(contents(done@) =~= Seq::<Seq<char>>::empty());
    while i < line.len()
        invariant
            i <= line.len(),
            (contents(done@), cur@) == scan(line@.take(i as int)),
        decreases line.len() - i,
    {
        let b = line[i];
        let ghost closed = contents(done@);
        let ghost open = cur@;
        proof {
            assert(line@.take(i + 1).drop_last() =~= line@.take(i as int));
        }
        if !white_space(b) {
            cur.push(b);
        } else if cur.len() > 0 {
            done.push(cur);
            cur = Vec::new();
            assert(contents(done@) =~= closed.push(open));
            assert(cur@ =~= Seq::<char>::empty());
        }
        i = i + 1;
    }
    assert(line@.take(line@.len() as int) =~= line@);
    if cur.len() > 0 {
        let ghost closed = contents(done@);
        let ghost open = cur@;
        done.push(cur);
        assert(contents(done@) =~= closed.push(open));
    }
    done
}

/// Reads the number that a field holds, where it holds one of at most
/// `max`.
pub fn parse_number(field: &[char], max: u64) -> (r: Option<u64>)
    ensures
        match r {
            Some(x) => number(field@, max as nat) == Some(x as nat),
            None => number(field@, max as nat) is None,
        },
{
    let start: usize = if field.len() > 0 && field[0] == '+' {
        1
    } else {
        0
    };
    let ghost digits = unsigned(field@);
    assert(digits =~= field@.skip(start as int));
    if start == field.len() {
        return None;
    }
    let mut acc: u64 = 0;
    let mut i: usize = start;
    assert(digits.take(0) =~= Seq::<char>::empty());
    while i < field.len()
        invariant
            start <= i <= field.len(),
            digits == unsigned(field@),
            digits == field@.skip(start as int),
            all_digits(digits.take(i - start)),
            acc == digits_value(digits.take(i - start)),
            acc <= max,
        decreases field.len() - i,
    {
        let b = field[i];
        let ghost seen = digits.take(i - start);
        let ghost next = digits.take(i - start + 1);
        proof {
            assert(next.drop_last() =~= seen);
            assert(next.last() == b);
        }
        let code = b as u32;
        if !(0x30 <= code && code <= 0x39) {
            assert(!all_digits(digits)) by {
                assert(digits[i - start] == b);
            }
            return None;
        }
        let digit: u64 = (code - 0x30) as u64;
        proof {
            assert(all_digits(next)) by {
                assert forall|k: int| 0 <= k < next.len() implies is_digit(#[trigger] next[k]) by {
                    if k < seen.len() {
                        assert(next[k] == seen[k]);
                    }
                }
            }
            if digit > max || acc > (max - digit) / 10 {
                if all_digits(digits) {
                    lemma_digits_value_grows(digits, i - start + 1);
                }
            }
        }
        if digit > max || acc > (max - digit) / 10 {
            return None;
        }
        acc = acc * 10 + digit;
        i = i + 1;
    }
    assert(digits.take(digits.len() as int) =~= digits);
    Some(acc)
}

/// Reads the edge that a line gives.
pub fn parse_edge(line: &[char]) -> (r: Result<Option<(Node, Node, Weight)>, TextError>)
    ensures
        r == edge_of_line(line@),
{
    let f = split_fields(line);
    let ghost fs = fields(line@);
    assert(forall|i: int| 0 <= i < f@.len() ==> (#[trigger] f@[i])@ == fs[i]);
    if f.len() == 0 {
        return Ok(None);
    }
    let u = match parse_number(f[0].as_slice(), usize::MAX as u64) {
        Some(x) => x as usize,
        None => {
            return Err(TextError::InvalidNumber);
        },
    };
    if f.len() < 2 {
        return Err(TextError::MissingField);
    }
    let v = match parse_number(f[1].as_slice(), usize::MAX as u64) {
        Some(x) => x as usize,
        None => {
            return Err(TextError::InvalidNumber);
        },
    };
    if f.len() < 3 {
        return Err(TextError::MissingField);
    }
    let w = match parse_number(f[2].as_slice(), u64::MAX) {
        Some(x) => x,
        None => {
            return Err(TextError::InvalidNumber);
        },
    };
    Ok(Some((u, v, w)))
}

/// Reads the source that a line gives.
pub fn parse_source(line: &[char]) -> (r: Result<Option<(Node, Weight)>, TextError>)
    ensures
        r == source_of_line(line@),
{
    let f = split_fields(line);
    let ghost fs = fields(line@);
    assert(forall|i: int| 0 <= i < f@.len() ==> (#[trigger] f@[i])@ == fs[i]);
    if f.len() == 0 {
        return Ok(None);
    }
    let s = match parse_number(f[0].as_slice(), usize::MAX as u64) {
        Some(x) => x as usize,
        None => {
            return Err(TextError::InvalidNumber);
        },
    };
    let mut d0: Weight = 0;
    if f.len() >= 2 {
        match parse_number(f[1].as_slice(), u64::MAX) {
            Some(x) => {
                d0 = x;
            },
            None => {},
        }
    }
    Ok(Some((s, d0)))
}

/// Reads a graph from its text. The result is the graph that the text
/// gives, or the error that it makes.
pub fn parse_graph(text: &[char]) -> (r: Result<Graph, TextError>)
    ensures
        match r {
            Ok(g) => graph_of_text(text@) == Ok::<Adjacency, TextError>(g@),
            Err(e) => graph_of_text(text@) == Err::<Adjacency, TextError>(e),
        },
{
    let all = split_lines(text);
    let ghost ls = lines(text@);
    proof {
        lemma_lines_nonempty(text@);
    }
    assert(forall|i: int| 0 <= i < all@.len() ==> (#[trigger] all@[i])@ == ls[i]);
    let header = split_fields(all[0].as_slice());
    assert(forall|i: int|
        0 <= i < header@.len() ==> (#[trigger] header@[i])@ == fields(ls[0])[i]);
    let mut n: usize = 0;
    if header.len() > 0 {
        match parse_number(header[0].as_slice(), usize::MAX as u64) {
            Some(x) => {
                n = x as usize;
            },
            None => {},
        }
    }
    assert(n == count_of_header(ls[0]));
    let mut g = Graph::new(n);
    let mut i: usize = 1;
    let ghost rest = ls.skip(1);
    assert(rest.take(0) =~= Seq::<Seq<char>>::empty());
    while i < all.len()
        invariant
            1 <= i <= all@.len(),
            all@.len() == ls.len(),
            forall|k: int| 0 <= k < all@.len() ==> (#[trigger] all@[k])@ == ls[k],
            ls == lines(text@),
            rest == ls.skip(1),
            n == count_of_header(ls[0]),
            g@.len() == n,
            graph_of_lines(n as nat, rest.take(i - 1)) == Ok::<Adjacency, TextError>(g@),
        decreases all@.len() - i,
    {
        proof {
            assert(rest.take(i as int).drop_last() =~= rest.take(i - 1));
            assert(rest.take(i as int).last() == ls[i as int]);
        }
        match parse_edge(all[i].as_slice()) {
            Err(e) => {
                proof {
                    lemma_error_stays(n as nat, rest, i as int);
                }
                return Err(e);
            },
            Ok(None) => {},
            Ok(Some((u, v, w))) => {
                if u < n {
                    g.add_edge(u, v, w);
                } else {
                    proof {
                        lemma_error_stays(n as nat, rest, i as int);
                    }
                    return Err(TextError::VertexOutOfRange);
                }
            },
        }
        i = i + 1;
    }
    assert(rest.take(rest.len() as int) =~= rest);
    Ok(g)
}

/// Reads a source list from its text. The result holds the sources that
/// the text gives, or the error that it makes.
pub fn parse_sources(text: &[char]) -> (r: Result<Vec<(Node, Weight)>, TextError>)
    ensures
        match r {
            Ok(sources) => sources_of_text(text@) == Ok::<Seq<(Node, Weight)>, TextError>(
                sources@,
            ),
            Err(e) => sources_of_text(text@) == Err::<Seq<(Node, Weight)>, TextError>(e),
        },
{
    let all = split_lines(text);
    let ghost ls = lines(text@);
    proof {
        lemma_lines_nonempty(text@);
    }
    assert(forall|i: int| 0 <= i < all@.len() ==> (#[trigger] all@[i])@ == ls[i]);
    let mut out: Vec<(Node, Weight)> = Vec::new();
    let mut i: usize = 1;
    let ghost rest = ls.skip(1);
    assert(rest.take(0) =~= Seq::<Seq<char>>::empty());
    while i < all.len()
        invariant
            1 <= i <= all@.len(),
            all@.len() == ls.len(),
            forall|k: int| 0 <= k < all@.len() ==> (#[trigger] all@[k])@ == ls[k],
            ls == lines(text@),
            rest == ls.skip(1),
            sources_of_lines(rest.take(i - 1)) == Ok::<Seq<(Node, Weight)>, TextError>(out@),
        decreases all@.len() - i,
    {
        proof {
            assert(rest.take(i as int).drop_last() =~= rest.take(i - 1));
            assert(rest.take(i as int).last() == ls[i as int]);
        }
        match parse_source(all[i].as_slice()) {
            Err(e) => {
                proof {
                    lemma_source_error_stays(rest, i as int);
                }
                return Err(e);
            },
            Ok(None) => {},
            Ok(Some(source)) => {
                out.push(source);
            },
        }
        i = i + 1;
    }
    assert(rest.take(rest.len() as int) =~= rest);
    Ok(out)
}

/// An error that the first lines make is the error of all the lines.
proof fn lemma_error_stays(n: nat, edge_lines: Seq<Seq<char>>, k: int)
    requires
        0 <= k <= edge_lines.len(),
        graph_of_lines(n, edge_lines.take(k)) is Err,
    ensures
        graph_of_lines(n, edge_lines) == graph_of_lines(n, edge_lines.take(k)),
    decreases edge_lines.len() - k,
{
    if k < edge_lines.len() {
        assert(edge_lines.take(k + 1).drop_last() =~= edge_lines.take(k));
        lemma_error_stays(n, edge_lines, k + 1);
    } else {
        assert(edge_lines.take(k) =~= edge_lines);
    }
}

/// An error that the first lines make is the error of all the lines.
proof fn lemma_source_error_stays(source_lines: Seq<Seq<char>>, k: int)
    requires
        0 <= k <= source_lines.len(),
        sources_of_lines(source_lines.take(k)) is Err,
    ensures
        sources_of_lines(source_lines) == sources_of_lines(source_lines.take(k)),
    decreases source_lines.len() - k,
{
    if k < source_lines.len() {
        assert(source_lines.take(k + 1).drop_last() =~= source_lines.take(k));
        lemma_source_error_stays(source_lines, k + 1);
    } else {
        assert(source_lines.take(k) =~= source_lines);
    }
}

} // verus!
