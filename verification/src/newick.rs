//! Reading a tree from its bracketed text form: subtrees in parentheses,
//! separated by commas, each vertex with an optional label and an optional
//! branch length after a colon.

use vstd::prelude::*;

verus! {

/// A vertex as the text gives it: its label, the text of its branch length,
/// and its subtrees in order.
#[derive(Debug, PartialEq, Eq)]
pub struct ParsedNode {
    pub name: Option<String>,
    pub length: Option<String>,
    pub children: Vec<ParsedNode>,
}

/// Why a text is not a tree.
#[derive(Debug, Clone, PartialEq, Eq)]
pub enum ParseError {
    /// After a subtree in parentheses came neither `,` nor `)` but `found`,
    /// at index `at`.
    UnexpectedChar { found: char, at: usize },
    /// The text ended inside parentheses.
    UnexpectedEnd,
    /// What follows a colon is not a number.
    BadLength { text: String },
}

/// What a `ParsedNode` holds, as mathematical values.
pub struct ParsedView {
    pub name: Option<Seq<char>>,
    pub length: Option<Seq<char>>,
    pub children: Seq<ParsedView>,
}

/// What a `ParseError` holds, as mathematical values.
pub enum ParseFault {
    UnexpectedChar { found: char, at: int },
    UnexpectedEnd,
    BadLength { text: Seq<char> },
}

/// The view of an optional string.
pub open spec fn text_view(text: Option<String>) -> Option<Seq<char>> {
    match text {
        Some(s) => Some(s@),
        None => None,
    }
}

impl ParsedNode {
    pub open spec fn view(self) -> ParsedView
        decreases self,
    {
        ParsedView {
            name: text_view(self.name),
            length: text_view(self.length),
            children: Seq::new(
                self.children@.len(),
                |i: int|
                    if 0 <= i < self.children@.len() {
                        self.children@[i].view()
                    } else {
                        arbitrary()
                    },
            ),
        }
    }
}

impl ParseError {
    pub open spec fn view(self) -> ParseFault {
        match self {
            ParseError::UnexpectedChar { found, at } => ParseFault::UnexpectedChar {
                found,
                at: at as int,
            },
            ParseError::UnexpectedEnd => ParseFault::UnexpectedEnd,
            ParseError::BadLength { text } => ParseFault::BadLength { text: text@ },
        }
    }
}

/// Whether a character is white space, as `char::is_whitespace` says.
pub uninterp spec fn whitespace(c: char) -> bool;

/// Not proved: `char::is_whitespace` is taken to be a function of the
/// character alone; `whitespace` is the name of what it returns.
pub assume_specification[ char::is_whitespace ](c: char) -> (r: bool)
    ensures
        r == whitespace(c),
;

/// Not proved: `String::push` appends the character to the end of the string.
pub assume_specification[ String::push ](s: &mut String, c: char)
    ensures
        final(s)@ == old(s)@.push(c),
;

/// A character that a label cannot hold: it ends the label before it.
pub open spec fn ends_label(c: char) -> bool {
    c == ':' || c == ',' || c == ')' || c == ';' || whitespace(c)
}

pub open spec fn is_digit(c: char) -> bool {
    '0' <= c <= '9'
}

pub open spec fn is_sign(c: char) -> bool {
    c == '+' || c == '-'
}

/// A character that the text of a branch length is read from.
pub open spec fn in_number(c: char) -> bool {
    is_digit(c) || c == '.' || c == 'e' || c == 'E' || is_sign(c)
}

/// The first index from `pos` on that holds a character that ends a label,
/// or the length of the text.
pub open spec fn label_end(s: Seq<char>, pos: int) -> int
    decreases s.len() - pos,
{
    if pos < 0 || pos >= s.len() || ends_label(s[pos]) {
        pos
    } else {
        label_end(s, pos + 1)
    }
}

/// The first index from `pos` on that holds a character that no branch
/// length is read from, or the length of the text.
pub open spec fn number_end(s: Seq<char>, pos: int) -> int
    decreases s.len() - pos,
{
    if pos < 0 || pos >= s.len() || !in_number(s[pos]) {
        pos
    } else {
        number_end(s, pos + 1)
    }
}

/// The first index from `pos` on, below `hi`, that holds no digit, or `hi`.
pub open spec fn digits_end(s: Seq<char>, pos: int, hi: int) -> int
    decreases hi - pos,
{
    if pos < 0 || pos >= hi || pos >= s.len() || !is_digit(s[pos]) {
        pos
    } else {
        digits_end(s, pos + 1, hi)
    }
}

/// The characters from `lo` up to `hi` are a number: an optional sign;
/// digits, with an optional point among them, before them or after them, at
/// least one digit in all; and an optional exponent, which is `e` or `E`,
/// an optional sign, and at least one digit.
pub open spec fn number_between(s: Seq<char>, lo: int, hi: int) -> bool {
    let a = if lo < hi && is_sign(s[lo]) {
        lo + 1
    } else {
        lo
    };
    let b = digits_end(s, a, hi);
    let point = b < hi && s[b] == '.';
    let c = if point {
        digits_end(s, b + 1, hi)
    } else {
        b
    };
    let digits = if point {
        c - a - 1
    } else {
        c - a
    };
    let d = if c + 1 < hi && is_sign(s[c + 1]) {
        c + 2
    } else {
        c + 1
    };
    &&& digits >= 1
    &&& c == hi || ((s[c] == 'e' || s[c] == 'E') && d < digits_end(s, d, hi) && digits_end(s, d, hi)
        == hi)
}

/// The vertex whose label starts at `pos` and whose subtrees are `kids`,
/// with the index after it: a label up to the next character that ends one
/// (no label where that is at once), then, after a colon, the text of a
/// branch length, which has to be a number.
pub open spec fn vertex_from(s: Seq<char>, pos: int, kids: Seq<ParsedView>) -> Result<
    (ParsedView, int),
    ParseFault,
> {
    let e = label_end(s, pos);
    let name = if e > pos {
        Some(s.subrange(pos, e))
    } else {
        None
    };
    if e < s.len() && s[e] == ':' {
        let f = number_end(s, e + 1);
        if number_between(s, e + 1, f) {
            Ok((ParsedView { name, length: Some(s.subrange(e + 1, f)), children: kids }, f))
        } else {
            Err(ParseFault::BadLength { text: s.subrange(e + 1, f) })
        }
    } else {
        Ok((ParsedView { name, length: None, children: kids }, e))
    }
}

/// The subtree that starts at `pos`, with the index after it: where a `(`
/// stands there, the subtrees in the parentheses and then the vertex itself;
/// else a vertex without subtrees.
pub open spec fn subtree_from(s: Seq<char>, pos: int) -> Result<(ParsedView, int), ParseFault>
    decreases s.len() - pos, 0nat,
{
    if 0 <= pos < s.len() && s[pos] == '(' {
        match children_from(s, pos + 1) {
            Ok((kids, after)) => vertex_from(s, after, kids),
            Err(fault) => Err(fault),
        }
    } else {
        vertex_from(s, pos, Seq::empty())
    }
}

/// The subtrees that start at `pos`, up to the `)` that closes them, with
/// the index after it: one subtree, then a comma and more of them, or the
/// `)`; anything else there is a fault.
pub open spec fn children_from(s: Seq<char>, pos: int) -> Result<(Seq<ParsedView>, int), ParseFault>
    decreases s.len() - pos, 1nat,
{
    match subtree_from(s, pos) {
        Err(fault) => Err(fault),
        Ok((child, next)) => if next < pos || next >= s.len() {
            Err(ParseFault::UnexpectedEnd)
        } else if s[next] == ',' {
            prepend(seq![child], children_from(s, next + 1))
        } else if s[next] == ')' {
            Ok((seq![child], next + 1))
        } else {
            Err(ParseFault::UnexpectedChar { found: s[next], at: next })
        },
    }
}

/// The subtrees `done` put before those of `more`.
pub open spec fn prepend(
    done: Seq<ParsedView>,
    more: Result<(Seq<ParsedView>, int), ParseFault>,
) -> Result<(Seq<ParsedView>, int), ParseFault> {
    match more {
        Ok((rest, end)) => Ok((done + rest, end)),
        Err(fault) => Err(fault),
    }
}

/// The views of a run of parsed vertices.
pub open spec fn parsed_views(nodes: Seq<ParsedNode>) -> Seq<ParsedView> {
    Seq::new(nodes.len(), |i: int| nodes[i]@)
}

/// What was returned is what the text holds.
pub open spec fn agrees(
    got: Result<(ParsedNode, usize), ParseError>,
    want: Result<(ParsedView, int), ParseFault>,
) -> bool {
    match got {
        Ok((node, next)) => want == Ok::<(ParsedView, int), ParseFault>((node@, next as int)),
        Err(error) => want == Err::<(ParsedView, int), ParseFault>(error@),
    }
}

fn is_digit_char(c: char) -> (r: bool)
    ensures
        r == is_digit(c),
{
    c >= '0' && c <= '9'
}

fn is_sign_char(c: char) -> (r: bool)
    ensures
        r == is_sign(c),
{
    c == '+' || c == '-'
}

fn ends_label_char(c: char) -> (r: bool)
    ensures
        r == ends_label(c),
{
    c == ':' || c == ',' || c == ')' || c == ';' || c.is_whitespace()
}

fn in_number_char(c: char) -> (r: bool)
    ensures
        r == in_number(c),
{
    is_digit_char(c) || c == '.' || c == 'e' || c == 'E' || is_sign_char(c)
}

/// Reads a label: the characters from `pos` up to the next one that ends a
/// label. Returns the label and the index after it.
pub fn parse_label(input: &Vec<char>, pos: usize) -> (r: (String, usize))
    requires
        pos <= input@.len(),
    ensures
        r.1 == label_end(input@, pos as int),
        pos <= r.1 <= input@.len(),
        r.0@ == input@.subrange(pos as int, r.1 as int),
{
    let mut label = String::new();
    let mut i = pos;
    while i < input.len() && !ends_label_char(input[i])
        invariant
            pos <= i <= input@.len(),
            label@ == input@.subrange(pos as int, i as int),
            label_end(input@, pos as int) == label_end(input@, i as int),
        decreases input@.len() - i,
    {
        label.push(input[i]);
        assert(label@ == input@.subrange(pos as int, i + 1));
        i = i + 1;
    }
    (label, i)
}

/// The first index from `pos` on, below `hi`, that holds no digit.
fn skip_digits(input: &Vec<char>, pos: usize, hi: usize) -> (end: usize)
    requires
        pos <= hi <= input@.len(),
    ensures
        end == digits_end(input@, pos as int, hi as int),
        pos <= end <= hi,
{
    let mut i = pos;
    while i < hi && is_digit_char(input[i])
        invariant
            pos <= i <= hi <= input@.len(),
            digits_end(input@, pos as int, hi as int) == digits_end(input@, i as int, hi as int),
        decreases hi - i,
    {
        i = i + 1;
    }
    i
}

/// Whether the characters from `lo` up to `hi` are a number.
fn is_number(input: &Vec<char>, lo: usize, hi: usize) -> (r: bool)
    requires
        lo <= hi <= input@.len(),
    ensures
        r == number_between(input@, lo as int, hi as int),
{
    let a = if lo < hi && is_sign_char(input[lo]) {
        lo + 1
    } else {
        lo
    };
    let b = skip_digits(input, a, hi);
    let point = b < hi && input[b] == '.';
    let c = if point {
        skip_digits(input, b + 1, hi)
    } else {
        b
    };
    let digits = if point {
        c - a - 1
    } else {
        c - a
    };
    if digits < 1 {
        return false;
    }
    if c == hi {
        return true;
    }
    if input[c] != 'e' && input[c] != 'E' {
        return false;
    }
    let d = if c + 1 < hi && is_sign_char(input[c + 1]) {
        c + 2
    } else {
        c + 1
    };
    let e = skip_digits(input, d, hi);
    d < e && e == hi
}

/// Reads the text of a branch length: the characters from `pos` on that a
/// number can be made of, which have to be a number. Returns the text and
/// the index after it.
pub fn parse_length(input: &Vec<char>, pos: usize) -> (r: Result<(String, usize), ParseError>)
    requires
        pos <= input@.len(),
    ensures
        match r {
            Ok((text, next)) => {
                &&& next == number_end(input@, pos as int)
                &&& text@ == input@.subrange(pos as int, next as int)
                &&& number_between(input@, pos as int, next as int)
                &&& pos <= next <= input@.len()
            },
            Err(error) => {
                &&& !number_between(input@, pos as int, number_end(input@, pos as int))
                &&& error@ == (ParseFault::BadLength {
                    text: input@.subrange(pos as int, number_end(input@, pos as int)),
                })
            },
        },
{
    let mut text = String::new();
    let mut i = pos;
    while i < input.len() && in_number_char(input[i])
        invariant
            pos <= i <= input@.len(),
            text@ == input@.subrange(pos as int, i as int),
            number_end(input@, pos as int) == number_end(input@, i as int),
        decreases input@.len() - i,
    {
        text.push(input[i]);
        assert(text@ == input@.subrange(pos as int, i + 1));
        i = i + 1;
    }
    if is_number(input, pos, i) {
        Ok((text, i))
    } else {
        Err(ParseError::BadLength { text })
    }
}

/// Reads the vertex whose label starts at `pos` and whose subtrees are `kids`.
fn parse_vertex(input: &Vec<char>, pos: usize, kids: Vec<ParsedNode>) -> (r: Result<
    (ParsedNode, usize),
    ParseError,
>)
    requires
        pos <= input@.len(),
    ensures
        agrees(r, vertex_from(input@, pos as int, parsed_views(kids@))),
        r matches Ok((_, next)) ==> pos <= next <= input@.len(),
{
    let ghost views = parsed_views(kids@);
    let (label, e) = parse_label(input, pos);
    let name = if e > pos {
        Some(label)
    } else {
        None
    };
    if e < input.len() && input[e] == ':' {
        match parse_length(input, e + 1) {
            Ok((text, f)) => {
                let node = ParsedNode { name, length: Some(text), children: kids };
                assert(node@.children =~= views);
                Ok((node, f))
            },
            Err(error) => Err(error),
        }
    } else {
        let node = ParsedNode { name, length: None, children: kids };
        assert(node@.children =~= views);
        Ok((node, e))
    }
}

/// Reads the subtree that starts at `pos`. Returns it and the index after it.
pub fn parse_subtree(input: &Vec<char>, pos: usize) -> (r: Result<(ParsedNode, usize), ParseError>)
    requires
        pos <= input@.len(),
    ensures
        agrees(r, subtree_from(input@, pos as int)),
        r matches Ok((_, next)) ==> pos <= next <= input@.len(),
    decreases input@.len() - pos,
{
    let ghost s = input@;
    let mut kids: Vec<ParsedNode> = Vec::new();
    let mut at = pos;
    if pos < input.len() && input[pos] == '(' {
        let mut open = true;
        at = pos + 1;
        assert(parsed_views(kids@) =~= Seq::empty());
        assert(prepend(Seq::empty(), children_from(s, pos + 1)) == children_from(s, pos + 1)) by {
            match children_from(s, pos + 1) {
                Ok((rest, end)) => {
                    assert(Seq::<ParsedView>::empty() + rest =~= rest);
                },
                Err(_) => {},
            }
        }
        while open
            invariant
                s == input@,
                pos < s.len(),
                s[pos as int] == '(',
                pos < at <= s.len(),
                open ==> children_from(s, pos + 1) == prepend(
                    parsed_views(kids@),
                    children_from(s, at as int),
                ),
                !open ==> children_from(s, pos + 1) == Ok::<(Seq<ParsedView>, int), ParseFault>(
                    (parsed_views(kids@), at as int),
                ),
            decreases s.len() - at + (if open { 1int } else { 0int }),
        {
            let ghost done = parsed_views(kids@);
            match parse_subtree(input, at) {
                Err(error) => {
                    return Err(error);
                },
                Ok((child, next)) => {
                    kids.push(child);
                    assert(parsed_views(kids@) =~= done + seq![child@]);
                    if next >= input.len() {
                        return Err(ParseError::UnexpectedEnd);
                    }
                    let c = input[next];
                    if c == ',' {
                        proof {
                            match children_from(s, next + 1) {
                                Ok((rest, end)) => {
                                    assert(done + (seq![child@] + rest) =~= (done + seq![child@])
                                        + rest);
                                },
                                Err(_) => {},
                            }
                        }
                        at = next + 1;
                    } else if c == ')' {
                        at = next + 1;
                        open = false;
                    } else {
                        return Err(ParseError::UnexpectedChar { found: c, at: next });
                    }
                },
            }
        }
        assert(subtree_from(s, pos as int) == vertex_from(s, at as int, parsed_views(kids@)));
    } else {
        assert(parsed_views(kids@) =~= Seq::empty());
        assert(subtree_from(s, pos as int) == vertex_from(s, at as int, parsed_views(kids@)));
    }
    parse_vertex(input, at, kids)
}

/// Reads a tree from its text: the subtree that starts the text. What
/// follows it is not read.
pub fn parse_newick(input: &Vec<char>) -> (r: Result<ParsedNode, ParseError>)
    ensures
        match subtree_from(input@, 0) {
            Ok((tree, _)) => r matches Ok(node) && node@ == tree,
            Err(fault) => r matches Err(error) && error@ == fault,
        },
{
    match parse_subtree(input, 0) {
        Ok((node, _)) => Ok(node),
        Err(error) => Err(error),
    }
}

} // verus!
