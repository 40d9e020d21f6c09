//! Reading a graph from the text of its file: a line `p`, a blank, then the numbers
//! of vertices and edges, which a word naming the format may precede; and a line
//! `e`, a blank and two vertices for each edge. Other lines say nothing.

use vstd::prelude::*;

verus! {

/// The greatest number that a field may hold.
pub const FIELD_MAX: usize = 2147483647;

/// What one line says.
#[derive(Clone, Copy, Debug, PartialEq, Eq, Structural)]
pub enum Line {
    /// Nothing that counts.
    Other,
    /// The numbers of vertices and of edges.
    Size(usize, usize),
    /// An edge between two vertices, numbered from one.
    Edge(usize, usize),
    /// A field that should be a number and is none.
    Malformed,
}

/// The line, counted from zero, whose field is no number.
#[derive(Clone, Copy, Debug, PartialEq, Eq, Structural)]
pub struct ParseError {
    pub line: usize,
}

/// What the text of a file holds: the numbers of vertices and edges that its last
/// `p` line gives, and the edges in the order of their lines.
pub struct GraphFile {
    pub amount_info: Option<(usize, usize)>,
    pub data: Vec<(usize, usize)>,
}

/// Blank, tab, line feed, vertical tab, form feed, carriage return.
pub open spec fn is_space(b: u8) -> bool {
    b == 32 || 9 <= b <= 13
}

/// The digits `0` to `9`.
pub open spec fn is_digit(b: u8) -> bool {
    48 <= b <= 57
}

/// Where the line that begins at `from` ends: at the next line feed, or with the text.
pub open spec fn line_end(bytes: Seq<u8>, from: int) -> int
    decreases bytes.len() - from,
{
    if from >= bytes.len() {
        bytes.len() as int
    } else if bytes[from] == 10 {
        from
    } else {
        line_end(bytes, from + 1)
    }
}

/// Where the word that begins at `from` ends: before the next space, or at `to`.
pub open spec fn word_end(bytes: Seq<u8>, from: int, to: int) -> int
    decreases to - from,
{
    if from >= to {
        to
    } else if is_space(bytes[from]) {
        from
    } else {
        word_end(bytes, from + 1, to)
    }
}

/// A line ends at or behind its beginning, at a line feed or with the text, and
/// holds no line feed.
pub proof fn lemma_line_end(bytes: Seq<u8>, from: int)
    requires
        0 <= from <= bytes.len(),
    ensures
        from <= line_end(bytes, from) <= bytes.len(),
        line_end(bytes, from) < bytes.len() ==> bytes[line_end(bytes, from)] == 10,
        forall|i: int| from <= i < line_end(bytes, from) ==> bytes[i] != 10,
    decreases bytes.len() - from,
{
    if from < bytes.len() && bytes[from] != 10 {
        lemma_line_end(bytes, from + 1);
    }
}

/// A word ends at a space or at `to` and holds no space; one that begins with
/// what is no space is not empty.
pub proof fn lemma_word_end(bytes: Seq<u8>, from: int, to: int)
    requires
        0 <= from <= to <= bytes.len(),
    ensures
        from <= word_end(bytes, from, to) <= to,
        word_end(bytes, from, to) < to ==> is_space(bytes[word_end(bytes, from, to)]),
        forall|i: int| from <= i < word_end(bytes, from, to) ==> !is_space(bytes[i]),
        from < to && !is_space(bytes[from]) ==> from < word_end(bytes, from, to),
    decreases to - from,
{
    if from < to && !is_space(bytes[from]) {
        lemma_word_end(bytes, from + 1, to);
    }
}

/// The words between `from` and `to`, each by its first place and the place behind
/// its last: the longest runs of what is no space.
pub open spec fn words(bytes: Seq<u8>, from: int, to: int) -> Seq<(int, int)>
    decreases to - from,
{
    if from >= to || from < 0 || to > bytes.len() {
        Seq::empty()
    } else if is_space(bytes[from]) {
        words(bytes, from + 1, to)
    } else {
        proof {
            lemma_word_end(bytes, from, to);
        }
        seq![(from, word_end(bytes, from, to))] + words(bytes, word_end(bytes, from, to), to)
    }
}

/// The number that the digits between `from` and `to` write.
pub open spec fn digits_value(bytes: Seq<u8>, from: int, to: int) -> int
    decreases to - from,
{
    if to <= from {
        0
    } else {
        digits_value(bytes, from, to - 1) * 10 + (bytes[to - 1] - 48)
    }
}

/// Whether every place between `from` and `to` holds a digit.
pub open spec fn all_digits(bytes: Seq<u8>, from: int, to: int) -> bool {
    forall|i: int| from <= i < to ==> is_digit(#[trigger] bytes[i])
}

/// The number that the word between `from` and `to` writes: digits, which a plus
/// sign may precede, for a number up to `FIELD_MAX`.
pub open spec fn number(bytes: Seq<u8>, from: int, to: int) -> Option<usize> {
    let start = if from < to && bytes[from] == 43 {
        from + 1
    } else {
        from
    };
    if start < to && all_digits(bytes, start, to) && digits_value(bytes, start, to) <= FIELD_MAX {
        Some(digits_value(bytes, start, to) as usize)
    } else {
        None
    }
}

/// The numbers that two words write, where both write one.
pub open spec fn number_pair(bytes: Seq<u8>, first: (int, int), second: (int, int)) -> Option<
    (usize, usize),
> {
    match (number(bytes, first.0, first.1), number(bytes, second.0, second.1)) {
        (Some(a), Some(b)) => Some((a, b)),
        _ => None,
    }
}

/// What the line between `from` and `to` says. A line that begins with `e` and a
/// blank and goes on with two words is an edge. A line that begins with `p` and a
/// blank and goes on with two words, or with three of which the last two count,
/// gives the size. Such a line is malformed where one of the words is no number.
pub open spec fn line_meaning(bytes: Seq<u8>, from: int, to: int) -> Line {
    if 0 <= from && from + 2 <= to <= bytes.len() && bytes[from + 1] == 32 && (bytes[from] == 101
        || bytes[from] == 112) {
        let fields = words(bytes, from + 2, to);
        if bytes[from] == 101 {
            if fields.len() == 2 {
                match number_pair(bytes, fields[0], fields[1]) {
                    Some((u, v)) => Line::Edge(u, v),
                    None => Line::Malformed,
                }
            } else {
                Line::Other
            }
        } else {
            if fields.len() == 2 || fields.len() == 3 {
                match number_pair(bytes, fields[fields.len() - 2], fields[fields.len() - 1]) {
                    Some((n, m)) => Line::Size(n, m),
                    None => Line::Malformed,
                }
            } else {
                Line::Other
            }
        }
    } else {
        Line::Other
    }
}

/// The size after a line: what the line gives, or else what was known before.
pub open spec fn size_after(meaning: Line, amount_info: Option<(usize, usize)>) -> Option<
    (usize, usize),
> {
    match meaning {
        Line::Size(n, m) => Some((n, m)),
        _ => amount_info,
    }
}

/// The edges after a line: those before it, and behind them the one it gives.
pub open spec fn edges_after(meaning: Line, data: Seq<(usize, usize)>) -> Seq<(usize, usize)> {
    match meaning {
        Line::Edge(u, v) => data.push((u, v)),
        _ => data,
    }
}

/// What the text from `from` on adds to what the `line` lines before it gave: the
/// size is that of the last line that gives one, and the edges come in the order of
/// their lines. The first malformed line ends the reading with its number.
pub open spec fn parsed(
    bytes: Seq<u8>,
    from: int,
    line: int,
    amount_info: Option<(usize, usize)>,
    data: Seq<(usize, usize)>,
) -> Result<(Option<(usize, usize)>, Seq<(usize, usize)>), int>
    decreases bytes.len() + 1 - from,
{
    if from >= bytes.len() || from < 0 {
        Ok((amount_info, data))
    } else {
        let meaning = line_meaning(bytes, from, line_end(bytes, from));
        if meaning == Line::Malformed {
            Err(line)
        } else {
            proof {
                lemma_line_end(bytes, from);
            }
            parsed(
                bytes,
                line_end(bytes, from) + 1,
                line + 1,
                size_after(meaning, amount_info),
                edges_after(meaning, data),
            )
        }
    }
}

/// What the whole text holds.
pub open spec fn parsed_text(bytes: Seq<u8>) -> Result<
    (Option<(usize, usize)>, Seq<(usize, usize)>),
    int,
> {
    parsed(bytes, 0, 0, None, Seq::empty())
}

/// Word ranges as pairs of places.
pub open spec fn ranges_view(found: Seq<(usize, usize)>) -> Seq<(int, int)> {
    Seq::new(found.len(), |i: int| (found[i].0 as int, found[i].1 as int))
}

proof fn lemma_digits_grow(bytes: Seq<u8>, from: int, mid: int, to: int)
    requires
        0 <= from <= mid <= to <= bytes.len(),
        all_digits(bytes, from, to),
    ensures
        0 <= digits_value(bytes, from, mid) <= digits_value(bytes, from, to),
    decreases to - mid,
{
    if mid == from {
        lemma_digits_nonnegative(bytes, from, to);
    } else if mid < to {
        lemma_digits_grow(bytes, from, mid + 1, to);
        lemma_digits_nonnegative(bytes, from, mid);
        assert(is_digit(bytes[mid]));
    } else {
        lemma_digits_nonnegative(bytes, from, to);
    }
}

proof fn lemma_digits_nonnegative(bytes: Seq<u8>, from: int, to: int)
    requires
        0 <= from <= to <= bytes.len(),
        all_digits(bytes, from, to),
    ensures
        0 <= digits_value(bytes, from, to),
    decreases to - from,
{
    if from < to {
        lemma_digits_nonnegative(bytes, from, to - 1);
        assert(is_digit(bytes[to - 1]));
    }
}

fn is_space_byte(b: u8) -> (space: bool)
    ensures
        space == is_space(b),
{
    b == 32 || (9 <= b && b <= 13)
}

fn find_line_end(bytes: &[u8], from: usize) -> (end: usize)
    requires
        from <= bytes@.len(),
    ensures
        end == line_end(bytes@, from as int),
        from <= end <= bytes@.len(),
{
    let mut end: usize = from;
    while end < bytes.len() && bytes[end] != 10
        invariant
            from <= end <= bytes@.len(),
            line_end(bytes@, from as int) == line_end(bytes@, end as int),
        decreases bytes@.len() - end,
    {
        end += 1;
    }
    end
}

fn find_word_end(bytes: &[u8], from: usize, to: usize) -> (end: usize)
    requires
        from <= to <= bytes@.len(),
    ensures
        end == word_end(bytes@, from as int, to as int),
        from <= end <= to,
{
    let mut end: usize = from;
    while end < to && !is_space_byte(bytes[end])
        invariant
            from <= end <= to <= bytes@.len(),
            word_end(bytes@, from as int, to as int) == word_end(bytes@, end as int, to as int),
        decreases to - end,
    {
        end += 1;
    }
    end
}

/// Finds the words between `from` and `to`.
pub fn split_words(bytes: &[u8], from: usize, to: usize) -> (found: Vec<(usize, usize)>)
    requires
        from <= to <= bytes@.len(),
    ensures
        ranges_view(found@) == words(bytes@, from as int, to as int),
        forall|i: int|
            0 <= i < found@.len() ==> from <= (#[trigger] found@[i]).0 < found@[i].1 <= to,
{
    let mut found: Vec<(usize, usize)> = Vec::new();
    let mut at: usize = from;
    proof {
        assert(ranges_view(found@) + words(bytes@, at as int, to as int) =~= words(
            bytes@,
            from as int,
            to as int,
        ));
    }
    while at < to
        invariant
            from <= at <= to <= bytes@.len(),
            ranges_view(found@) + words(bytes@, at as int, to as int) == words(
                bytes@,
                from as int,
                to as int,
            ),
            forall|i: int|
                0 <= i < found@.len() ==> from <= (#[trigger] found@[i]).0 < found@[i].1 <= to,
        decreases to - at,
    {
        if is_space_byte(bytes[at]) {
            at += 1;
        } else {
            let end = find_word_end(bytes, at, to);
            proof {
                lemma_word_end(bytes@, at as int, to as int);
                assert(ranges_view(found@.push((at, end))) + words(bytes@, end as int, to as int)
                    =~= ranges_view(found@) + (seq![(at as int, end as int)] + words(
                    bytes@,
                    end as int,
                    to as int,
                )));
            }
            found.push((at, end));
            at = end;
        }
    }
    assert(ranges_view(found@) + words(bytes@, at as int, to as int) =~= ranges_view(found@));
    found
}

/// Reads the word between `from` and `to` as a number.
pub fn read_number(bytes: &[u8], from: usize, to: usize) -> (value: Option<usize>)
    requires
        from <= to <= bytes@.len(),
    ensures
        value == number(bytes@, from as int, to as int),
{
    let mut at: usize = from;
    if at < to && bytes[at] == 43 {
        at += 1;
    }
    if at >= to {
        return None;
    }
    let start = at;
    let mut value: u64 = 0;
    while at < to
        invariant
            start <= at <= to <= bytes@.len(),
            start < to,
            start as int == if from < to && bytes@[from as int] == 43 {
                from + 1
            } else {
                from as int
            },
            all_digits(bytes@, start as int, at as int),
            value == digits_value(bytes@, start as int, at as int),
            value <= FIELD_MAX,
        decreases to - at,
    {
        let b = bytes[at];
        if b < 48 || b > 57 {
            return None;
        }
        value = value * 10 + (b - 48) as u64;
        if value > 2147483647 {
            proof {
                if all_digits(bytes@, start as int, to as int) {
                    lemma_digits_grow(bytes@, start as int, at + 1, to as int);
                }
            }
            return None;
        }
        at += 1;
    }
    Some(value as usize)
}

fn read_pair(bytes: &[u8], first: (usize, usize), second: (usize, usize)) -> (pair: Option<
    (usize, usize),
>)
    requires
        first.0 <= first.1 <= bytes@.len(),
        second.0 <= second.1 <= bytes@.len(),
    ensures
        pair == number_pair(
            bytes@,
            (first.0 as int, first.1 as int),
            (second.0 as int, second.1 as int),
        ),
{
    match read_number(bytes, first.0, first.1) {
        None => None,
        Some(a) => match read_number(bytes, second.0, second.1) {
            None => None,
            Some(b) => Some((a, b)),
        },
    }
}

/// Reads the line between `from` and `to`.
pub fn read_line(bytes: &[u8], from: usize, to: usize) -> (meaning: Line)
    requires
        from <= to <= bytes@.len(),
    ensures
        meaning == line_meaning(bytes@, from as int, to as int),
{
    if to - from < 2 || bytes[from + 1] != 32 || (bytes[from] != 101 && bytes[from] != 112) {
        return Line::Other;
    }
    let fields = split_words(bytes, from + 2, to);
    let ghost ranges = words(bytes@, from + 2, to as int);
    let count = fields.len();
    assert(count == ranges.len());
    if bytes[from] == 101 {
        if count == 2 {
            assert(ranges[0] == (fields@[0].0 as int, fields@[0].1 as int));
            assert(ranges[1] == (fields@[1].0 as int, fields@[1].1 as int));
            match read_pair(bytes, fields[0], fields[1]) {
                Some((u, v)) => Line::Edge(u, v),
                None => Line::Malformed,
            }
        } else {
            Line::Other
        }
    } else if count == 2 || count == 3 {
        assert(ranges[count - 2] == (fields@[count - 2].0 as int, fields@[count - 2].1 as int));
        assert(ranges[count - 1] == (fields@[count - 1].0 as int, fields@[count - 1].1 as int));
        match read_pair(bytes, fields[count - 2], fields[count - 1]) {
            Some((n, m)) => Line::Size(n, m),
            None => Line::Malformed,
        }
    } else {
        Line::Other
    }
}

/// Reads the text of a graph's file. It fails exactly where a line that should
/// give a size or an edge holds a word that is no number, and names the first
/// such line.
pub fn parse_graph(bytes: &[u8]) -> (read: Result<GraphFile, ParseError>)
    ensures
        match parsed_text(bytes@) {
            Ok((amount_info, data)) => read is Ok && read.unwrap().amount_info == amount_info
                && read.unwrap().data@ == data,
            Err(line) => read == Err::<GraphFile, ParseError>((ParseError { line: line as usize }))
                && 0 <= line < bytes@.len(),
        },
{
    let mut amount_info: Option<(usize, usize)> = None;
    let mut data: Vec<(usize, usize)> = Vec::new();
    let mut at: usize = 0;
    let mut line: usize = 0;
    while at < bytes.len()
        invariant
            line <= at <= bytes@.len(),
            parsed_text(bytes@) == parsed(bytes@, at as int, line as int, amount_info, data@),
        decreases bytes@.len() - at,
    {
        let end = find_line_end(bytes, at);
        let meaning = read_line(bytes, at, end);
        proof {
            lemma_line_end(bytes@, at as int);
            let next_info = size_after(meaning, amount_info);
            let next_data = edges_after(meaning, data@);
            if meaning != Line::Malformed {
                assert(parsed_text(bytes@) == parsed(bytes@, end + 1, line + 1, next_info, next_data));
                if end == bytes@.len() {
                    assert(parsed(bytes@, end + 1, line + 1, next_info, next_data) == parsed(
                        bytes@,
                        end as int,
                        line + 1,
                        next_info,
                        next_data,
                    ));
                }
            }
        }
        match meaning {
            Line::Malformed => {
                return Err(ParseError { line });
            },
            Line::Edge(u, v) => {
                data.push((u, v));
            },
            Line::Size(n, m) => {
                amount_info = Some((n, m));
            },
            Line::Other => {},
        }
        if end == bytes.len() {
            at = end;
        } else {
            at = end + 1;
        }
        line += 1;
    }
    Ok(GraphFile { amount_info, data })
}

} // verus!
