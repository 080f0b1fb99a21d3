//! Graph descriptions: a header line `nodes edges`, then one line
//! `src dst weight` for each edge.
//!
//! The numbers of a line are separated by whitespace: one separator byte or
//! several in a row between two numbers count as one separation. Nothing may
//! stand before the first number of a line or after its last one, so a
//! separator at either end of the line spoils the number next to it.

use crate::graph::{edgeless, linked, Adjacency, Graph};
use crate::token::{is_space, number, parse, separates};
use vstd::prelude::*;
use vstd::utf8::encode_utf8;

verus! {

/// Why a graph description is refused.
#[derive(Clone, Copy, Debug, PartialEq, Eq, Structural)]
pub enum InputError {
    /// There is no header line.
    NoHeader,
    /// What stands where a number is expected is not a number, or is a number
    /// too large for `usize`.
    BadNumber,
    /// A line holds fewer numbers than the count given here, which is what it
    /// should hold.
    TokenCount(usize),
    /// The number of lines after the header is not the number of edges that
    /// the header gives.
    LineCount,
    /// An edge names a node that the graph does not have.
    BadEdge,
}

/// The index of the first separator in `line`, or the length of `line` where
/// it holds none.
pub open spec fn first_space(line: Seq<u8>) -> int
    decreases line.len(),
{
    if line.len() == 0 || is_space(line[0]) {
        0
    } else {
        1 + first_space(line.skip(1))
    }
}

/// The number of separators that `line` starts with.
pub open spec fn leading_spaces(line: Seq<u8>) -> int
    decreases line.len(),
{
    if line.len() == 0 || !is_space(line[0]) {
        0
    } else {
        1 + leading_spaces(line.skip(1))
    }
}

/// `line` cut into at most `limit` pieces, the last of which holds all that
/// is left. A piece ends at the first separator after its start, and the next
/// piece starts after all the separators that follow in a row.
pub open spec fn pieces(line: Seq<u8>, limit: nat) -> Seq<Seq<u8>>
    decreases limit,
{
    let cut = first_space(line);
    if limit <= 1 || cut == line.len() {
        seq![line]
    } else {
        let next = cut + leading_spaces(line.skip(cut));
        seq![line.take(cut)] + pieces(line.skip(next), (limit - 1) as nat)
    }
}

/// The `limit` numbers of `line`. A piece that is no number is reported before
/// a missing piece is.
pub open spec fn fields(line: Seq<u8>, limit: nat) -> Result<Seq<usize>, InputError> {
    let tokens = pieces(line, limit);
    if exists|i: int| 0 <= i < tokens.len() && number(#[trigger] tokens[i]) is None {
        Err(InputError::BadNumber)
    } else if tokens.len() != limit {
        Err(InputError::TokenCount(limit as usize))
    } else {
        Ok(Seq::new(limit, |i: int| number(tokens[i]).unwrap()))
    }
}

/// The two numbers of a header line.
pub open spec fn pair(line: Seq<u8>) -> Result<(usize, usize), InputError> {
    match fields(line, 2) {
        Ok(values) => Ok((values[0], values[1])),
        Err(error) => Err(error),
    }
}

/// The three numbers of an edge line.
pub open spec fn triple(line: Seq<u8>) -> Result<(usize, usize, usize), InputError> {
    match fields(line, 3) {
        Ok(values) => Ok((values[0], values[1], values[2])),
        Err(error) => Err(error),
    }
}

/// `adj` with the edges of `lines` added in their order, or the error of the
/// first line that is no edge of the graph.
pub open spec fn build(adj: Adjacency, lines: Seq<Seq<u8>>) -> Result<Adjacency, InputError>
    decreases lines.len(),
{
    if lines.len() == 0 {
        Ok(adj)
    } else {
        match triple(lines[0]) {
            Err(error) => Err(error),
            Ok((src, dst, weight)) => if src < adj.len() && dst < adj.len() {
                build(linked(adj, src, dst, weight), lines.skip(1))
            } else {
                Err(InputError::BadEdge)
            },
        }
    }
}

/// The graph that `lines` describe, or why they describe none.
pub open spec fn described(lines: Seq<Seq<u8>>) -> Result<Adjacency, InputError> {
    if lines.len() == 0 {
        Err(InputError::NoHeader)
    } else {
        match pair(lines[0]) {
            Err(error) => Err(error),
            Ok((nodes, edges)) => if lines.len() != edges + 1 {
                Err(InputError::LineCount)
            } else {
                build(edgeless(nodes as nat), lines.skip(1))
            },
        }
    }
}

/// The bytes of each line.
pub open spec fn bytes_of(lines: Seq<String>) -> Seq<Seq<u8>> {
    Seq::new(lines.len(), |i: int| encode_utf8(lines[i]@))
}

/// `first_space` is the first index that holds a separator.
pub proof fn lemma_first_space(line: Seq<u8>, cut: int)
    requires
        0 <= cut <= line.len(),
        forall|j: int| 0 <= j < cut ==> !is_space(#[trigger] line[j]),
        cut == line.len() || is_space(line[cut]),
    ensures
        first_space(line) == cut,
    decreases cut,
{
    if cut > 0 {
        let rest = line.skip(1);
        assert forall|j: int| 0 <= j < cut - 1 implies !is_space(#[trigger] rest[j]) by {
            assert(rest[j] == line[j + 1]);
        }
        assert(!is_space(line[0]));
        lemma_first_space(rest, cut - 1);
    }
}

/// The index of the first separator at or after `from`, or the length of
/// `text` where none follows.
pub fn find_space(text: &[u8], from: usize) -> (cut: usize)
    requires
        from <= text@.len(),
    ensures
        from <= cut <= text@.len(),
        cut - from == first_space(text@.skip(from as int)),
        cut < text@.len() ==> is_space(text@[cut as int]),
{
    let mut cut = from;
    while cut < text.len() && !separates(text[cut])
        invariant
            from <= cut <= text@.len(),
            forall|j: int| from <= j < cut ==> !is_space(#[trigger] text@[j]),
        decreases text@.len() - cut,
    {
        cut += 1;
    }
    proof {
        let rest = text@.skip(from as int);
        assert forall|j: int| 0 <= j < cut - from implies !is_space(#[trigger] rest[j]) by {
            assert(rest[j] == text@[from + j]);
        }
        lemma_first_space(rest, cut - from);
    }
    cut
}

/// `leading_spaces` is the first index that holds no separator.
pub proof fn lemma_leading_spaces(line: Seq<u8>, run: int)
    requires
        0 <= run <= line.len(),
        forall|j: int| 0 <= j < run ==> is_space(#[trigger] line[j]),
        run == line.len() || !is_space(line[run]),
    ensures
        leading_spaces(line) == run,
    decreases run,
{
    if run > 0 {
        let rest = line.skip(1);
        assert forall|j: int| 0 <= j < run - 1 implies is_space(#[trigger] rest[j]) by {
            assert(rest[j] == line[j + 1]);
        }
        assert(is_space(line[0]));
        lemma_leading_spaces(rest, run - 1);
    }
}

/// The index of the first byte at or after `from` that is no separator, or
/// the length of `text` where only separators follow.
pub fn skip_spaces(text: &[u8], from: usize) -> (next: usize)
    requires
        from <= text@.len(),
    ensures
        from <= next <= text@.len(),
        next - from == leading_spaces(text@.skip(from as int)),
        next < text@.len() ==> !is_space(text@[next as int]),
        from < text@.len() && is_space(text@[from as int]) ==> from < next,
{
    let mut next = from;
    while next < text.len() && separates(text[next])
        invariant
            from <= next <= text@.len(),
            forall|j: int| from <= j < next ==> is_space(#[trigger] text@[j]),
        decreases text@.len() - next,
    {
        next += 1;
    }
    proof {
        let rest = text@.skip(from as int);
        assert forall|j: int| 0 <= j < next - from implies is_space(#[trigger] rest[j]) by {
            assert(rest[j] == text@[from + j]);
        }
        lemma_leading_spaces(rest, next - from);
    }
    next
}

/// Reads the `limit` numbers of a line.
pub fn numbers(line: &str, limit: usize) -> (out: Result<Vec<usize>, InputError>)
    requires
        limit >= 1,
    ensures
        out matches Ok(values) ==> fields(encode_utf8(line@), limit as nat) == Ok::<
            Seq<usize>,
            InputError,
        >(values@),
        out matches Err(error) ==> fields(encode_utf8(line@), limit as nat) == Err::<
            Seq<usize>,
            InputError,
        >(error),
{
    let text = line.as_bytes();
    let mut values: Vec<usize> = Vec::new();
    let mut from: usize = 0;
    let ghost whole = pieces(text@, limit as nat);
    let ghost mut done: Seq<Seq<u8>> = Seq::empty();
    proof {
        assert(text@.skip(0) =~= text@);
        assert(whole =~= done + pieces(text@.skip(0), limit as nat));
    }
    loop
        invariant_except_break
            from <= text@.len(),
            values@.len() < limit,
            whole == done + pieces(text@.skip(from as int), (limit - done.len()) as nat),
        invariant
            text@ == encode_utf8(line@),
            whole == pieces(text@, limit as nat),
            values@.len() == done.len(),
            forall|i: int| 0 <= i < done.len() ==> number(#[trigger] done[i]) == Some(values@[i]),
        ensures
            whole == done,
        decreases text@.len() - from,
    {
        let last = values.len() + 1 == limit;
        let cut = if last {
            text.len()
        } else {
            find_space(text, from)
        };
        let ghost rest = text@.skip(from as int);
        let ghost piece = text@.subrange(from as int, cut as int);
        let ghost left = (limit - done.len()) as nat;
        proof {
            assert(piece =~= rest.take(cut - from));
            if cut == text@.len() {
                assert(piece =~= rest);
            }
            assert(pieces(rest, left)[0] == piece);
            assert(whole[done.len() as int] == piece);
        }
        match parse(text, from, cut) {
            Some(value) => {
                values.push(value);
            },
            None => {
                return Err(InputError::BadNumber);
            },
        }
        proof {
            done = done.push(piece);
        }
        if cut == text.len() {
            proof {
                assert(pieces(rest, left) =~= seq![piece]);
                assert(whole =~= done);
            }
            break ;
        }
        let next = skip_spaces(text, cut);
        proof {
            assert(rest.skip(cut - from) =~= text@.skip(cut as int));
            assert(rest.skip(next - from) =~= text@.skip(next as int));
            assert(pieces(rest, left) =~= seq![piece] + pieces(
                text@.skip(next as int),
                (left - 1) as nat,
            ));
            assert(whole =~= done + pieces(text@.skip(next as int), (limit - done.len()) as nat));
        }
        from = next;
    }
    proof {
        assert forall|i: int| 0 <= i < whole.len() implies !(number(#[trigger] whole[i]) is None) by {
            assert(number(done[i]) == Some(values@[i]));
        }
    }
    if values.len() != limit {
        return Err(InputError::TokenCount(limit));
    }
    proof {
        assert(values@ =~= Seq::new(limit as nat, |i: int| number(whole[i]).unwrap()));
    }
    Ok(values)
}

/// Reads a header line: the number of nodes and the number of edges.
pub fn split2(line: &str) -> (out: Result<(usize, usize), InputError>)
    ensures
        out == pair(encode_utf8(line@)),
{
    match numbers(line, 2) {
        Ok(values) => Ok((values[0], values[1])),
        Err(error) => Err(error),
    }
}

/// Reads an edge line: the two nodes that the edge joins, and its weight.
pub fn split3(line: &str) -> (out: Result<(usize, usize, usize), InputError>)
    ensures
        out == triple(encode_utf8(line@)),
{
    match numbers(line, 3) {
        Ok(values) => Ok((values[0], values[1], values[2])),
        Err(error) => Err(error),
    }
}

/// Builds the graph that `lines` describe.
pub fn read(lines: &Vec<String>) -> (out: Result<Graph, InputError>)
    ensures
        out matches Ok(graph) ==> graph.wf() && described(bytes_of(lines@)) == Ok::<
            Adjacency,
            InputError,
        >(graph@),
        out matches Err(error) ==> described(bytes_of(lines@)) == Err::<Adjacency, InputError>(
            error,
        ),
{
    let ghost texts = bytes_of(lines@);
    if lines.len() == 0 {
        return Err(InputError::NoHeader);
    }
    let (nodes, edges) = match split2(lines[0].as_str()) {
        Ok(counts) => counts,
        Err(error) => {
            return Err(error);
        },
    };
    if edges != lines.len() - 1 {
        return Err(InputError::LineCount);
    }
    let mut graph = Graph::new(nodes);
    let mut at: usize = 1;
    proof {
        assert(texts.skip(1) =~= texts.skip(at as int));
    }
    while at < lines.len()
        invariant
            1 <= at <= lines@.len(),
            texts == bytes_of(lines@),
            graph.wf(),
            graph@.len() == nodes,
            described(texts) == build(graph@, texts.skip(at as int)),
        decreases lines@.len() - at,
    {
        proof {
            assert(texts.skip(at as int)[0] == encode_utf8(lines@[at as int]@));
            assert(texts.skip(at as int).skip(1) =~= texts.skip(at as int + 1));
        }
        let (src, dst, weight) = match split3(lines[at].as_str()) {
            Ok(edge) => edge,
            Err(error) => {
                return Err(error);
            },
        };
        if !(src < nodes && dst < nodes) {
            return Err(InputError::BadEdge);
        }
        graph.link(src, dst, weight);
        at += 1;
    }
    Ok(graph)
}

} // verus!
