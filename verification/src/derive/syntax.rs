//! The token trees a derive input is made of, the boundary of an expression
//! inside them, and the text of Rust string literals.
use vstd::prelude::*;

use crate::strings::{char_from_scalar, hex_digit, hex_digit_value, hex_value, scalar_value};
use crate::text::push_char;

verus! {

/// How a group of tokens is delimited.
#[derive(Clone, Copy, Debug, PartialEq, Eq, Structural)]
pub enum Bracket {
    Parenthesis,
    Brace,
    Bracket,
    Invisible,
}

/// One token tree of a derive input. Every tree carries `site`, a number the
/// caller chose to find the tree again, for instance to point an error at it.
#[derive(Debug)]
pub enum Tree {
    Ident { text: String, site: usize },
    Punct { symbol: char, joint: bool, site: usize },
    Literal { text: String, site: usize },
    Group { delimiter: Bracket, inner: Vec<Tree>, site: usize },
}

/// The site of a tree.
pub open spec fn site_of(tree: Tree) -> usize {
    match tree {
        Tree::Ident { site, .. } => site,
        Tree::Punct { site, .. } => site,
        Tree::Literal { site, .. } => site,
        Tree::Group { site, .. } => site,
    }
}

impl Tree {
    pub fn site(&self) -> (site: usize)
        ensures
            site == site_of(*self),
    {
        match self {
            Tree::Ident { site, .. } => *site,
            Tree::Punct { site, .. } => *site,
            Tree::Literal { site, .. } => *site,
            Tree::Group { site, .. } => *site,
        }
    }
}

/// An error found in a derive input: where it points, as a site or, when it
/// has none, the place the derive was invoked, and what it says.
#[derive(Clone, Debug)]
pub struct DeriveError {
    pub site: Option<usize>,
    pub message: String,
}

impl DeriveError {
    pub fn at(site: usize, message: &str) -> (error: Self)
        ensures
            error.site == Some(site),
            error.message@ == message@,
    {
        DeriveError { site: Some(site), message: message.to_owned() }
    }
}

/// Whether `tree` is the punctuation `expected`.
pub open spec fn punct_is(tree: Option<Tree>, expected: char) -> bool {
    tree matches Some(Tree::Punct { symbol, .. }) && symbol == expected
}

/// The tree at `index`, if there is one.
pub open spec fn tree_at(trees: Seq<Tree>, index: int) -> Option<Tree> {
    if 0 <= index < trees.len() {
        Some(trees[index])
    } else {
        None
    }
}

/// Checks whether an optional token matches a specific punctuation character.
pub fn is_punct(token: Option<&Tree>, expected: char) -> (found: bool)
    ensures
        found == punct_is(
            match token {
                Some(tree) => Some(*tree),
                None => None,
            },
            expected,
        ),
{
    match token {
        Some(Tree::Punct { symbol, .. }) => *symbol == expected,
        _ => false,
    }
}

/// The tree at `index` of `trees`, if there is one.
fn get(trees: &[Tree], index: usize) -> (tree: Option<&Tree>)
    ensures
        match tree {
            Some(found) => tree_at(trees@, index as int) == Some(*found),
            None => tree_at(trees@, index as int) is None,
        },
{
    if index < trees.len() {
        Some(&trees[index])
    } else {
        None
    }
}

/// Whether the tree before `index` is joint punctuation `expected`.
pub open spec fn joint_before(trees: Seq<Tree>, index: int, expected: char) -> bool {
    &&& index >= 1
    &&& tree_at(trees, index - 1) matches Some(Tree::Punct { symbol, joint, .. })
    &&& symbol == expected
    &&& joint
}

/// Checks whether the token preceding the index is joint punctuation matching
/// the character.
pub fn preceded_joint(tokens: &[Tree], index: usize, expected: char) -> (found: bool)
    ensures
        found == joint_before(tokens@, index as int, expected),
{
    if index == 0 {
        return false;
    }
    match get(tokens, index - 1) {
        Some(Tree::Punct { symbol, joint, .. }) => *symbol == expected && *joint,
        _ => false,
    }
}

/// The nesting depth after the tree at `index`: one deeper after `<`, one
/// shallower (never below zero) after a `>` that does not close `->`.
pub open spec fn depth_after(trees: Seq<Tree>, index: int, depth: nat) -> nat {
    if punct_is(tree_at(trees, index), '<') {
        depth + 1
    } else if punct_is(tree_at(trees, index), '>') && !punct_is(tree_at(trees, index - 1), '-') {
        if depth == 0 {
            0
        } else {
            (depth - 1) as nat
        }
    } else {
        depth
    }
}

/// Updates the angle bracket nesting depth at the given token index.
pub fn angle_depth(tokens: &[Tree], index: usize, depth: &mut usize)
    requires
        *old(depth) < usize::MAX,
    ensures
        *final(depth) == depth_after(tokens@, index as int, *old(depth) as nat),
{
    let before = if index == 0 {
        None
    } else {
        get(tokens, index - 1)
    };
    if is_punct(get(tokens, index), '<') {
        *depth = *depth + 1;
    } else if is_punct(get(tokens, index), '>') && !is_punct(before, '-') {
        *depth = if *depth == 0 {
            0
        } else {
            *depth - 1
        };
    }
}

/// What the scan for the end of an expression keeps track of: the angle
/// bracket depth, whether it is inside a closure's parameters, whether an
/// operand is expected next, and whether it reads a type.
pub struct Scan {
    pub depth: nat,
    pub closure: bool,
    pub operand: bool,
    pub type_context: bool,
}

/// Whether the scan stops at the tree at `index`: a top level comma outside
/// closure parameters.
pub open spec fn scan_stops(trees: Seq<Tree>, index: int, state: Scan) -> bool {
    &&& trees[index] matches Tree::Punct { symbol, .. }
    &&& symbol == ','
    &&& state.depth == 0
    &&& !state.closure
}

/// The scan state after reading the tree at `index`.
pub open spec fn scan_step(trees: Seq<Tree>, index: int, state: Scan) -> Scan {
    match trees[index] {
        Tree::Punct { symbol, .. } => if symbol == ',' && state.depth == 0 && !state.closure {
            state
        } else if symbol == '<' && (state.depth > 0 || (state.operand && !joint_before(
            trees,
            index,
            '<',
        )) || state.type_context || (index >= 2 && punct_is(tree_at(trees, index - 1), ':')
            && punct_is(tree_at(trees, index - 2), ':'))) {
            Scan { depth: state.depth + 1, operand: true, ..state }
        } else if symbol == '>' && state.depth > 0 && !punct_is(tree_at(trees, index - 1), '-') {
            Scan {
                depth: (state.depth - 1) as nat,
                operand: false,
                type_context: false,
                ..state
            }
        } else if symbol == '|' && state.depth == 0 && state.closure {
            Scan { closure: false, operand: true, type_context: false, ..state }
        } else if symbol == '|' && state.depth == 0 && state.operand && !joint_before(
            trees,
            index,
            '|',
        ) {
            Scan { closure: true, ..state }
        } else if symbol == ':' && state.closure {
            Scan { type_context: true, ..state }
        } else if symbol == '?' {
            Scan { operand: false, ..state }
        } else if symbol == '.' || symbol == ':' || symbol == '\'' {
            state
        } else {
            Scan { operand: true, ..state }
        },
        Tree::Ident { text, .. } => Scan {
            type_context: state.type_context || text@ == "as"@,
            operand: text@ == "move"@ || text@ == "async"@ || text@ == "return"@ || text@
                == "break"@ || text@ == "yield"@,
            ..state
        },
        _ => Scan { operand: false, ..state },
    }
}

/// The scan state before the tree at `index`.
pub open spec fn scan_before(trees: Seq<Tree>, index: int) -> Scan
    decreases index,
{
    if index <= 0 {
        Scan { depth: 0, closure: false, operand: true, type_context: false }
    } else {
        scan_step(trees, index - 1, scan_before(trees, index - 1))
    }
}

/// The angle bracket depth never exceeds the number of trees read.
proof fn lemma_scan_depth(trees: Seq<Tree>, index: int)
    requires
        0 <= index,
    ensures
        scan_before(trees, index).depth <= index,
    decreases index,
{
    if index > 0 {
        lemma_scan_depth(trees, index - 1);
    }
}

/// Finds the boundary of an expression within tokens by tracking angle bracket
/// depth and closures: the index of the first comma where the scan stops, or
/// the length when there is none.
pub fn expression_end(tokens: &[Tree]) -> (end: usize)
    ensures
        end <= tokens@.len(),
        end < tokens@.len() ==> scan_stops(tokens@, end as int, scan_before(tokens@, end as int)),
        forall|k: int|
            0 <= k < end ==> !#[trigger] scan_stops(tokens@, k, scan_before(tokens@, k)),
{
    let mut depth: usize = 0;
    let mut closure = false;
    let mut operand = true;
    let mut type_context = false;
    let mut index: usize = 0;
    while index < tokens.len()
        invariant
            index <= tokens@.len(),
            scan_before(tokens@, index as int) == (Scan {
                depth: depth as nat,
                closure,
                operand,
                type_context,
            }),
            depth <= index,
            forall|k: int|
                0 <= k < index ==> !#[trigger] scan_stops(tokens@, k, scan_before(tokens@, k)),
        decreases tokens@.len() - index,
    {
        proof {
            lemma_scan_depth(tokens@, index as int);
        }
        match &tokens[index] {
            Tree::Punct { symbol, .. } => {
                let symbol = *symbol;
                if symbol == ',' && depth == 0 && !closure {
                    return index;
                }
                let before = if index == 0 {
                    None
                } else {
                    get(tokens, index - 1)
                };
                let two_colons = index >= 2 && is_punct(get(tokens, index - 1), ':') && is_punct(
                    get(tokens, index - 2),
                    ':',
                );
                if symbol == '<' && (depth > 0 || (operand && !preceded_joint(tokens, index, '<'))
                    || type_context || two_colons) {
                    depth = depth + 1;
                    operand = true;
                } else if symbol == '>' && depth > 0 && !is_punct(before, '-') {
                    depth = depth - 1;
                    operand = false;
                    type_context = false;
                } else if symbol == '|' && depth == 0 && closure {
                    closure = false;
                    operand = true;
                    type_context = false;
                } else if symbol == '|' && depth == 0 && operand && !preceded_joint(
                    tokens,
                    index,
                    '|',
                ) {
                    closure = true;
                } else if symbol == ':' && closure {
                    type_context = true;
                } else if symbol == '?' {
                    operand = false;
                } else if symbol == '.' || symbol == ':' || symbol == '\'' {
                } else {
                    operand = true;
                }
            },
            Tree::Ident { text, .. } => {
                let word = text.as_str();
                proof {
                    reveal_strlit("as");
                    reveal_strlit("move");
                    reveal_strlit("async");
                    reveal_strlit("return");
                    reveal_strlit("break");
                    reveal_strlit("yield");
                }
                type_context = type_context || crate::text::same_text(word, "as");
                operand = crate::text::same_text(word, "move") || crate::text::same_text(
                    word,
                    "async",
                ) || crate::text::same_text(word, "return") || crate::text::same_text(word, "break")
                    || crate::text::same_text(word, "yield");
            },
            _ => {
                operand = false;
            },
        }
        index = index + 1;
    }
    tokens.len()
}

/// Drops the spaces, tabs and line breaks at the start of `text`.
pub open spec fn skip_blank(text: Seq<char>) -> Seq<char>
    decreases text.len(),
{
    if text.len() > 0 && (text[0] == ' ' || text[0] == '\t' || text[0] == '\n' || text[0] == '\r') {
        skip_blank(text.drop_first())
    } else {
        text
    }
}

/// Reads the digits of a braced unicode escape after the `{`, with the value
/// and number of digits read so far: the value, the number of digits and how
/// many characters up to and including the `}` were read.
pub open spec fn braced_escape(text: Seq<char>, value: nat, digits: nat) -> Option<(nat, nat, nat)>
    decreases text.len(),
{
    if text.len() == 0 {
        None
    } else if text[0] == '}' {
        Some((value, digits, 1))
    } else if text[0] == '_' {
        if digits == 0 {
            None
        } else {
            match braced_escape(text.drop_first(), value, digits) {
                Some((found, count, used)) => Some((found, count, used + 1)),
                None => None,
            }
        }
    } else if !hex_digit(text[0]) || digits + 1 > 6 {
        None
    } else {
        match braced_escape(text.drop_first(), value * 16 + hex_value(text[0]), digits + 1) {
            Some((found, count, used)) => Some((found, count, used + 1)),
            None => None,
        }
    }
}

/// The character whose scalar value is `value`.
pub open spec fn char_with(value: nat) -> char {
    (value as u32) as char
}

/// A character is the one whose scalar value it has.
proof fn lemma_char_with(c: char)
    ensures
        char_with(c as nat) == c,
{
    vstd::utf8::char_u32_cast(c, c as u32);
}

/// `c` followed by `rest`, when there is a rest.
pub open spec fn prepend(c: char, rest: Option<Seq<char>>) -> Option<Seq<char>> {
    match rest {
        Some(text) => Some(seq![c] + text),
        None => None,
    }
}

/// The text of the body of a cooked Rust string literal with its escapes
/// resolved, or `None` when an escape is invalid.
pub open spec fn cooked(input: Seq<char>) -> Option<Seq<char>>
    decreases input.len(),
{
    if input.len() == 0 {
        Some(Seq::empty())
    } else if input[0] != '\\' {
        prepend(input[0], cooked(input.drop_first()))
    } else if input.len() < 2 {
        None
    } else {
        let rest = input.skip(2);
        let escape = input[1];
        if escape == 'n' {
            prepend('\n', cooked(rest))
        } else if escape == 'r' {
            prepend('\r', cooked(rest))
        } else if escape == 't' {
            prepend('\t', cooked(rest))
        } else if escape == '\\' {
            prepend('\\', cooked(rest))
        } else if escape == '\'' {
            prepend('\'', cooked(rest))
        } else if escape == '"' {
            prepend('"', cooked(rest))
        } else if escape == '0' {
            prepend('\0', cooked(rest))
        } else if escape == 'x' {
            if rest.len() >= 2 && hex_digit(rest[0]) && hex_digit(rest[1]) && hex_value(rest[0])
                * 16 + hex_value(rest[1]) <= 0x7F {
                prepend(char_with(hex_value(rest[0]) * 16 + hex_value(rest[1])), cooked(rest.skip(2)))
            } else {
                None
            }
        } else if escape == 'u' {
            if rest.len() >= 1 && rest[0] == '{' {
                match braced_escape(rest.drop_first(), 0, 0) {
                    Some((value, count, used)) => if count == 0 || !scalar_value(value) {
                        None
                    } else {
                        proof {
                            lemma_braced_used(rest.drop_first(), 0, 0);
                        }
                        prepend(char_with(value), cooked(rest.skip((used + 1) as int)))
                    },
                    None => None,
                }
            } else {
                None
            }
        } else if escape == '\n' {
            proof {
                lemma_skip_blank(rest);
            }
            cooked(skip_blank(rest))
        } else if escape == '\r' {
            if rest.len() >= 1 && rest[0] == '\n' {
                proof {
                    lemma_skip_blank(rest.drop_first());
                }
                cooked(skip_blank(rest.drop_first()))
            } else {
                None
            }
        } else {
            None
        }
    }
}


/// Dropping leading blanks leaves a suffix of the text.
pub proof fn lemma_skip_blank(text: Seq<char>)
    ensures
        skip_blank(text).len() <= text.len(),
        skip_blank(text) == text.skip(text.len() - skip_blank(text).len()),
    decreases text.len(),
{
    if text.len() > 0 && (text[0] == ' ' || text[0] == '\t' || text[0] == '\n' || text[0] == '\r') {
        lemma_skip_blank(text.drop_first());
        assert(text.drop_first().skip(text.drop_first().len() - skip_blank(text).len()) =~= text.skip(
            text.len() - skip_blank(text).len(),
        ));
    } else {
        assert(text.skip(0) =~= text);
    }
}

/// A braced escape reads at least its closing brace and no more than the text.
pub proof fn lemma_braced_used(text: Seq<char>, value: nat, digits: nat)
    ensures
        braced_escape(text, value, digits) matches Some((_, _, used)) ==> 1 <= used <= text.len(),
    decreases text.len(),
{
    if text.len() > 0 && text[0] != '}' {
        if text[0] == '_' {
            lemma_braced_used(text.drop_first(), value, digits);
        } else if hex_digit(text[0]) {
            lemma_braced_used(text.drop_first(), value * 16 + hex_value(text[0]), digits + 1);
        }
    }
}

/// Whether `c` is a space, tab or line break.
fn is_blank(c: char) -> (blank: bool)
    ensures
        blank == (c == ' ' || c == '\t' || c == '\n' || c == '\r'),
{
    c == ' ' || c == '\t' || c == '\n' || c == '\r'
}

/// The index of the first character at or after `start` that is not blank.
fn skip_blank_from(input: &str, start: usize) -> (end: usize)
    requires
        start <= input@.len(),
    ensures
        start <= end <= input@.len(),
        input@.skip(end as int) == skip_blank(input@.skip(start as int)),
{
    let count = input.unicode_len();
    let mut end = start;
    while end < count && is_blank(input.get_char(end))
        invariant
            count == input@.len(),
            start <= end <= count,
            skip_blank(input@.skip(start as int)) == skip_blank(input@.skip(end as int)),
        decreases count - end,
    {
        proof {
            assert(input@.skip(end as int).drop_first() =~= input@.skip(end + 1));
        }
        end = end + 1;
    }
    proof {
        if end == count {
            assert(input@.skip(end as int) =~= Seq::<char>::empty());
        }
    }
    end
}

/// Reads the two hex digits of a `\x` escape starting at `start`.
fn byte_escape(input: &str, start: usize) -> (found: Option<char>)
    requires
        start <= input@.len(),
    ensures
        ({
            let rest = input@.skip(start as int);
            if rest.len() >= 2 && hex_digit(rest[0]) && hex_digit(rest[1]) && hex_value(rest[0])
                * 16 + hex_value(rest[1]) <= 0x7F {
                found == Some(char_with(hex_value(rest[0]) * 16 + hex_value(rest[1])))
            } else {
                found is None
            }
        }),
{
    let count = input.unicode_len();
    if count - start < 2 {
        return None;
    }
    let high = input.get_char(start);
    let low = input.get_char(start + 1);
    if !(crate::strings::is_hex_digit(high) && crate::strings::is_hex_digit(low)) {
        return None;
    }
    let value = hex_digit_value(high) * 16 + hex_digit_value(low);
    if value > 0x7F {
        return None;
    }
    let character = match char_from_scalar(value) {
        Some(character) => character,
        None => return None,
    };
    proof {
        let rest = input@.skip(start as int);
        assert(rest[0] == high);
        assert(rest[1] == low);
        lemma_char_with(character);
    }
    Some(character)
}

/// Reads the digits and closing brace of a `\u{...}` escape starting just
/// after the `{` at `start`: the character and the index after the `}`.
fn unicode_escape(input: &str, start: usize) -> (found: Option<(char, usize)>)
    requires
        start <= input@.len(),
    ensures
        match braced_escape(input@.skip(start as int), 0, 0) {
            Some((value, count, used)) => if count == 0 || !scalar_value(value) {
                found is None
            } else {
                found == Some((char_with(value), (start + used) as usize))
            },
            None => found is None,
        },
{
    let count = input.unicode_len();
    let ghost digits_text = input@.skip(start as int);
    let mut value: u32 = 0;
    let mut digits: u32 = 0;
    let mut position: usize = start;
    proof {
        assert(input@.skip(position as int) =~= digits_text);
    }
    loop
        invariant_except_break
            count == input@.len(),
            start <= position <= count,
            digits <= 6,
            value < crate::strings::pow16(digits as nat),
            digits_text == input@.skip(start as int),
            braced_escape(digits_text, 0, 0) == match braced_escape(
                input@.skip(position as int),
                value as nat,
                digits as nat,
            ) {
                Some((found, many, used)) => Some((found, many, (used + (position - start)) as nat)),
                None => None,
            },
        ensures
            start <= position <= count,
            braced_escape(digits_text, 0, 0) == Some(
                (value as nat, digits as nat, (position - start) as nat),
            ),
        decreases count - position,
    {
        if position >= count {
            return None;
        }
        let digit = input.get_char(position);
        proof {
            assert(input@.skip(position as int).drop_first() =~= input@.skip(position + 1));
        }
        position = position + 1;
        if digit == '}' {
            break;
        }
        if digit == '_' {
            if digits == 0 {
                return None;
            }
            continue;
        }
        if !crate::strings::is_hex_digit(digit) {
            return None;
        }
        if digits + 1 > 6 {
            return None;
        }
        proof {
            assert(crate::strings::pow16(digits as nat + 1) == crate::strings::pow16(digits as nat)
                * 16);
            assert(value * 16 + hex_value(digit) < crate::strings::pow16(digits as nat + 1))
                by (nonlinear_arith)
                requires
                    value < crate::strings::pow16(digits as nat),
                    hex_value(digit) < 16,
                    crate::strings::pow16(digits as nat + 1) == crate::strings::pow16(
                        digits as nat,
                    ) * 16,
            ;
            crate::strings::lemma_pow16_mono(digits as nat + 1, 6);
            reveal_with_fuel(crate::strings::pow16, 7);
        }
        value = value * 16 + hex_digit_value(digit);
        digits = digits + 1;
    }
    if digits == 0 {
        return None;
    }
    match char_from_scalar(value) {
        Some(character) => {
            proof {
                lemma_char_with(character);
            }
            Some((character, position))
        },
        None => None,
    }
}

/// Resolves standard Rust escape sequences in a cooked string literal,
/// returning `None` if an escape sequence is invalid.
#[verifier::rlimit(40)]
pub fn unescape_cooked(input: &str) -> (output: Option<String>)
    ensures
        match output {
            Some(text) => cooked(input@) == Some(text@),
            None => cooked(input@) is None,
        },
{
    let count = input.unicode_len();
    let mut output = String::new();
    let mut index: usize = 0;
    proof {
        assert(input@.skip(0) =~= input@);
        assert(Seq::<char>::empty() + input@ =~= input@);
    }
    while index < count
        invariant
            count == input@.len(),
            index <= count,
            cooked(input@) == match cooked(input@.skip(index as int)) {
                Some(rest) => Some(output@ + rest),
                None => None,
            },
        decreases count - index,
    {
        let ghost here = input@.skip(index as int);
        let ghost before = output@;
        let next = input.get_char(index);
        if next != '\\' {
            push_char(&mut output, next);
            proof {
                assert(here.drop_first() =~= input@.skip(index + 1));
                if let Some(rest) = cooked(input@.skip(index + 1)) {
                    assert(before + (seq![next] + rest) =~= output@ + rest);
                }
            }
            index = index + 1;
            continue;
        }
        if index + 1 >= count {
            return None;
        }
        let escape = input.get_char(index + 1);
        let start = index + 2;
        let ghost rest = here.skip(2);
        proof {
            assert(rest =~= input@.skip(start as int));
        }
        let simple = if escape == 'n' {
            Some('\n')
        } else if escape == 'r' {
            Some('\r')
        } else if escape == 't' {
            Some('\t')
        } else if escape == '\\' {
            Some('\\')
        } else if escape == '\'' {
            Some('\'')
        } else if escape == '"' {
            Some('"')
        } else if escape == '0' {
            Some('\0')
        } else {
            None
        };
        let (resolved, after): (Option<char>, usize) = if simple.is_some() {
            (simple, start)
        } else if escape == 'x' {
            proof {
                if rest.len() >= 2 {
                    assert(rest.skip(2) =~= input@.skip(start + 2));
                }
            }
            match byte_escape(input, start) {
                Some(character) => (Some(character), start + 2),
                None => return None,
            }
        } else if escape == 'u' {
            if start >= count || input.get_char(start) != '{' {
                return None;
            }
            proof {
                assert(rest.drop_first() =~= input@.skip(start + 1));
                lemma_braced_used(rest.drop_first(), 0, 0);
            }
            match unicode_escape(input, start + 1) {
                Some((character, end)) => {
                    proof {
                        assert(rest.skip((end - start) as int) =~= input@.skip(end as int));
                    }
                    (Some(character), end)
                },
                None => return None,
            }
        } else if escape == '\n' {
            (None, skip_blank_from(input, start))
        } else if escape == '\r' {
            if start >= count || input.get_char(start) != '\n' {
                return None;
            }
            proof {
                assert(rest.drop_first() =~= input@.skip(start + 1));
            }
            (None, skip_blank_from(input, start + 1))
        } else {
            return None;
        };
        if let Some(character) = resolved {
            push_char(&mut output, character);
            proof {
                if let Some(tail) = cooked(input@.skip(after as int)) {
                    assert(before + (seq![character] + tail) =~= output@ + tail);
                }
            }
        }
        index = after;
    }
    proof {
        assert(input@.skip(count as int) =~= Seq::<char>::empty());
        assert(output@ + Seq::<char>::empty() =~= output@);
    }
    Some(output)
}

/// Whether every character of `text` from `from` up to `to` is `#`.
fn all_hashes(text: &str, from: usize, to: usize) -> (found: bool)
    requires
        from <= to <= text@.len(),
    ensures
        found == forall|k: int| from <= k < to ==> text@[k] == '#',
{
    let mut k = from;
    while k < to
        invariant
            from <= k <= to <= text@.len(),
            forall|j: int| from <= j < k ==> text@[j] == '#',
        decreases to - k,
    {
        if text.get_char(k) != '#' {
            return false;
        }
        k = k + 1;
    }
    true
}

/// The number of `#` characters at the start of `text`.
pub open spec fn leading_hashes(text: Seq<char>) -> nat
    decreases text.len(),
{
    if text.len() > 0 && text[0] == '#' {
        leading_hashes(text.drop_first()) + 1
    } else {
        0
    }
}

/// The text a Rust string literal written as `text` stands for: a raw
/// string's body as it is, a cooked string's body with its escapes resolved,
/// or `None` when `text` is neither.
pub open spec fn literal_text(text: Seq<char>) -> Option<Seq<char>> {
    if text.len() > 0 && text[0] == 'r' {
        let hashes = leading_hashes(text.drop_first());
        let open = 1 + hashes;
        if open < text.len() && text[open as int] == '"' && text.len() >= open + 2 + hashes
            && text[text.len() - hashes - 1] == '"' && forall|k: int|
            text.len() - hashes <= k < text.len() ==> text[k] == '#' {
            Some(text.subrange((open + 1) as int, text.len() - hashes - 1))
        } else {
            None
        }
    } else if text.len() >= 2 && text[0] == '"' && text.last() == '"' {
        cooked(text.subrange(1, text.len() - 1))
    } else {
        None
    }
}

/// Decodes a string literal token into its unescaped string value, supporting
/// raw string literals.
pub fn decode_string(text: &str) -> (decoded: Option<String>)
    ensures
        match decoded {
            Some(found) => literal_text(text@) == Some(found@),
            None => literal_text(text@) is None,
        },
{
    let count = text.unicode_len();
    if count > 0 && text.get_char(0) == 'r' {
        let mut hashes: usize = 0;
        while 1 + hashes < count && text.get_char(1 + hashes) == '#'
            invariant
                count == text@.len(),
                1 + hashes <= count,
                leading_hashes(text@.drop_first()) == hashes + leading_hashes(
                    text@.skip(1 + hashes),
                ),
            decreases count - hashes,
        {
            proof {
                assert(text@.skip(1 + hashes).drop_first() =~= text@.skip(2 + hashes));
            }
            hashes = hashes + 1;
        }
        proof {
            assert(text@.drop_first() =~= text@.skip(1));
            if 1 + hashes == count {
                assert(text@.skip(1 + hashes) =~= Seq::<char>::empty());
            }
        }
        let open = 1 + hashes;
        if open >= count || text.get_char(open) != '"' {
            return None;
        }
        if count - open <= hashes + 1 {
            return None;
        }
        let close = count - hashes - 1;
        if text.get_char(close) != '"' {
            return None;
        }
        if !all_hashes(text, count - hashes, count) {
            return None;
        }
        let body = text.substring_char(open + 1, close);
        Some(body.to_owned())
    } else {
        if count < 2 || text.get_char(0) != '"' || text.get_char(count - 1) != '"' {
            return None;
        }
        let body = text.substring_char(1, count - 1);
        unescape_cooked(body)
    }
}

} // verus!
