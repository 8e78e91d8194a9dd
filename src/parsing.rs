use vstd::prelude::*;

use crate::builtins::{parse_i64, upsert};
use crate::evaluation::{is_space, member_index};
use crate::jsonpp::{
    lemma_members, lemma_trees, members, paths, trees, Dynamic, EvalError, JsonPP, Tree,
};
use crate::paths::{path_view, Chunk, PathChunk};
use crate::tokenizing::{trailing_backslashes, unescape};

verus! {

broadcast use lemma_trees, lemma_members;

/// The character classes that the reader skips or collects.
#[derive(Debug, Clone, Copy, PartialEq, Eq, Structural)]
pub enum CharClass {
    /// Whitespace.
    Space,
    /// Whitespace or `,`.
    SpaceOrComma,
    /// Whitespace or `:`.
    SpaceOrColon,
    /// ASCII digits and `.-+eE`.
    NumberChar,
    /// Letters and `_`.
    WordChar,
}

/// Letters among the characters a byte stands for, as `char::is_alphabetic` has them.
pub open spec fn is_letter(c: char) -> bool {
    let u = c as u32;
    (65 <= u <= 90) || (97 <= u <= 122) || u == 0xAA || u == 0xB5 || u == 0xBA || (0xC0 <= u
        <= 0xD6) || (0xD8 <= u <= 0xF6) || (0xF8 <= u <= 0xFF)
}

/// Whether `c` is in the class.
pub open spec fn in_class(cls: CharClass, c: char) -> bool {
    match cls {
        CharClass::Space => is_space(c),
        CharClass::SpaceOrComma => is_space(c) || c == ',',
        CharClass::SpaceOrColon => is_space(c) || c == ':',
        CharClass::NumberChar => ('0' <= c <= '9') || c == '.' || c == '-' || c == '+' || c == 'e'
            || c == 'E',
        CharClass::WordChar => is_letter(c) || c == '_',
    }
}

fn in_class_exec(cls: CharClass, c: char) -> (r: bool)
    ensures
        r == in_class(cls, c),
{
    let u = c as u32;
    let space = (9 <= u && u <= 13) || u == 32 || u == 0x85 || u == 0xA0;
    match cls {
        CharClass::Space => space,
        CharClass::SpaceOrComma => space || c == ',',
        CharClass::SpaceOrColon => space || c == ':',
        CharClass::NumberChar => ('0' <= c && c <= '9') || c == '.' || c == '-' || c == '+' || c
            == 'e' || c == 'E',
        CharClass::WordChar => (65 <= u && u <= 90) || (97 <= u && u <= 122) || u == 0xAA || u
            == 0xB5 || u == 0xBA || (0xC0 <= u && u <= 0xD6) || (0xD8 <= u && u <= 0xF6) || (0xF8
            <= u && u <= 0xFF) || c == '_',
    }
}

/// The rest of the input from `i` agrees with `pat` as far as both go.
pub open spec fn agrees(chars: Seq<char>, i: int, pat: Seq<char>) -> bool {
    forall|j: int| 0 <= j < pat.len() && i + j < chars.len() ==> chars[i + j] == pat[j]
}

/// Where a line comment that starts at `i` stops: the first position from `i` on where
/// the input agrees with a line break (the end of the input agrees with anything).
pub open spec fn line_end(chars: Seq<char>, i: int) -> int
    decreases chars.len() - i,
{
    if i >= chars.len() || agrees(chars, i, "\n"@) {
        i
    } else {
        line_end(chars, i + 1)
    }
}

/// Where a block comment that starts at `i` stops: the first position from `i` on where
/// the input agrees with `*/`.
pub open spec fn block_end(chars: Seq<char>, i: int) -> int
    decreases chars.len() - i,
{
    if i >= chars.len() || agrees(chars, i, "*/"@) {
        i
    } else {
        block_end(chars, i + 1)
    }
}

proof fn lemma_ends(chars: Seq<char>, i: int)
    requires
        i <= chars.len(),
    ensures
        i <= line_end(chars, i) <= chars.len(),
        i <= block_end(chars, i) <= chars.len(),
    decreases chars.len() - i,
{
    if i < chars.len() {
        lemma_ends(chars, i + 1);
    }
}

/// Where skipping from `i` stops: past characters of the class, and past comments (a
/// line comment up to and over its line break, a block comment up to and over `*/`).
pub open spec fn skip_to(chars: Seq<char>, i: int, cls: CharClass) -> int
    decreases chars.len() + 3 - i,
{
    if i < 0 || i >= chars.len() {
        i
    } else if agrees(chars, i, "//"@) {
        let e = line_end(chars, i);
        if i <= e <= chars.len() {
            skip_to(chars, e + 1, cls)
        } else {
            i
        }
    } else if agrees(chars, i, "/*"@) {
        let e = block_end(chars, i);
        if i <= e <= chars.len() {
            skip_to(chars, e + 2, cls)
        } else {
            i
        }
    } else if in_class(cls, chars[i]) {
        skip_to(chars, i + 1, cls)
    } else {
        i
    }
}

/// The first position from `k` on that holds a character outside the class (or the end).
pub open spec fn class_end(chars: Seq<char>, k: int, cls: CharClass) -> int
    decreases chars.len() - k,
{
    if k < 0 || k >= chars.len() || !in_class(cls, chars[k]) {
        k
    } else {
        class_end(chars, k + 1, cls)
    }
}

/// The first position from `k` on of a `"` that closes a string body starting at `start`.
pub open spec fn string_end(chars: Seq<char>, start: int, k: int) -> int
    decreases chars.len() - k,
{
    if k < 0 || k >= chars.len() {
        k
    } else if chars[k] == '"' && trailing_backslashes(chars.subrange(start, k)) % 2 == 0 {
        k
    } else {
        string_end(chars, start, k + 1)
    }
}

/// A quoted string at `j`: its value and the position after the closing quote.
pub open spec fn p_string(chars: Seq<char>, j: int) -> Option<(Tree, int)> {
    if 0 <= j < chars.len() && chars[j] == '"' {
        let e = string_end(chars, j + 1, j + 1);
        if j + 1 <= e < chars.len() {
            Some((Tree::Str(unescape(chars.subrange(j + 1, e))), e + 1))
        } else {
            None
        }
    } else {
        None
    }
}

/// The text has a fraction or an exponent.
pub open spec fn fractional(t: Seq<char>) -> bool {
    exists|i: int| 0 <= i < t.len() && (t[i] == '.' || t[i] == 'e' || t[i] == 'E')
}

/// A number at `j`: a whole number, or the next of `floats` for a fractional one.
pub open spec fn p_number(chars: Seq<char>, floats: Seq<u64>, j: int, used: nat) -> Option<
    (Tree, int, nat),
> {
    let t = class_end(chars, j, CharClass::NumberChar);
    let text = chars.subrange(j, t);
    if !(0 <= j < t) {
        None
    } else if fractional(text) {
        if used < floats.len() {
            Some((Tree::Float(floats[used as int]), t, used + 1))
        } else {
            None
        }
    } else {
        match crate::builtins::parse_int(text) {
            Some(n) => Some((Tree::Int(n), t, used)),
            None => None,
        }
    }
}

/// A literal word at `j` (`true`, `false`, `null`, `undefined`, checked in that order, each
/// only where the input is long enough), else an identifier of letters and `_`.
pub open spec fn p_other(chars: Seq<char>, j: int) -> Option<(Tree, int)> {
    if 0 <= j < chars.len() && agrees(chars, j, "true"@) && chars.len() - j >= 4 {
        Some((Tree::Bool(true), j + 4))
    } else if 0 <= j < chars.len() && agrees(chars, j, "false"@) && chars.len() - j >= 5 {
        Some((Tree::Bool(false), j + 5))
    } else if 0 <= j < chars.len() && agrees(chars, j, "null"@) && chars.len() - j >= 4 {
        Some((Tree::Null, j + 4))
    } else if 0 <= j < chars.len() && agrees(chars, j, "undefined"@) && chars.len() - j >= 9 {
        Some((Tree::Undefined, j + 9))
    } else {
        let e = class_end(chars, j, CharClass::WordChar);
        if 0 <= j < e {
            Some((Tree::Identifier(chars.subrange(j, e)), e))
        } else {
            None
        }
    }
}

/// A value at `i`, after whitespace and comments: its tree, the position after it, and
/// how many fractional numbers have been used.
pub open spec fn p_value(chars: Seq<char>, floats: Seq<u64>, i: int, used: nat) -> Option<
    (Tree, int, nat),
>
    decreases chars.len() + 3 - i, 1int,
{
    let j = skip_to(chars, i, CharClass::Space);
    if !(i <= j && 0 <= j < chars.len()) {
        None
    } else if chars[j] == '[' {
        p_array(chars, floats, j, used)
    } else if chars[j] == '{' {
        p_object(chars, floats, j, used)
    } else if chars[j] == '(' {
        p_dynamic(chars, floats, j, used)
    } else if chars[j] == '"' {
        match p_string(chars, j) {
            Some((v, e)) => Some((v, e, used)),
            None => None,
        }
    } else if ('0' <= chars[j] <= '9') || chars[j] == '-' {
        p_number(chars, floats, j, used)
    } else {
        match p_other(chars, j) {
            Some((v, e)) => Some((v, e, used)),
            None => None,
        }
    }
}

/// `[ value … ]` at `j`; commas between values are optional.
pub open spec fn p_array(chars: Seq<char>, floats: Seq<u64>, j: int, used: nat) -> Option<
    (Tree, int, nat),
>
    decreases chars.len() + 3 - j, 0int,
{
    let k = skip_to(chars, j + 1, CharClass::Space);
    if 0 <= j < chars.len() && chars[j] == '[' && j < k <= chars.len() + 2 {
        p_items(chars, floats, k, used, Seq::empty())
    } else {
        None
    }
}

/// The values from `k` up to `]`, after those in `acc`.
pub open spec fn p_items(chars: Seq<char>, floats: Seq<u64>, k: int, used: nat, acc: Seq<Tree>) -> Option<
    (Tree, int, nat),
>
    decreases chars.len() + 3 - k, 2int,
{
    if 0 <= k < chars.len() && chars[k] == ']' {
        Some((Tree::Array(acc), k + 1, used))
    } else {
        match p_value(chars, floats, k, used) {
            Some((v, k2, u2)) => {
                let k3 = skip_to(chars, k2, CharClass::SpaceOrComma);
                if k < k3 <= chars.len() + 2 {
                    p_items(chars, floats, k3, u2, acc.push(v))
                } else {
                    None
                }
            },
            None => None,
        }
    }
}

/// `{ "key": value … }` at `j`; a later key wins.
pub open spec fn p_object(chars: Seq<char>, floats: Seq<u64>, j: int, used: nat) -> Option<
    (Tree, int, nat),
>
    decreases chars.len() + 3 - j, 0int,
{
    let k = skip_to(chars, j + 1, CharClass::Space);
    if 0 <= j < chars.len() && chars[j] == '{' && j < k <= chars.len() + 2 {
        p_members(chars, floats, k, used, Seq::empty())
    } else {
        None
    }
}

/// The members from `k` up to `}`, written over those in `acc`.
pub open spec fn p_members(
    chars: Seq<char>,
    floats: Seq<u64>,
    k: int,
    used: nat,
    acc: Seq<(Seq<char>, Tree)>,
) -> Option<(Tree, int, nat)>
    decreases chars.len() + 3 - k, 2int,
{
    if 0 <= k < chars.len() && chars[k] == '}' {
        Some((Tree::Object(acc), k + 1, used))
    } else {
        match p_string(chars, k) {
            Some((Tree::Str(key), k2)) => {
                let k3 = skip_to(chars, k2, CharClass::SpaceOrColon);
                if k <= k3 <= chars.len() + 2 {
                    match p_value(chars, floats, k3, used) {
                        Some((v, k4, u2)) => {
                            let k5 = skip_to(chars, k4, CharClass::SpaceOrComma);
                            if k < k5 <= chars.len() + 2 {
                                p_members(chars, floats, k5, u2, upsert(acc, (key, v)))
                            } else {
                                None
                            }
                        },
                        None => None,
                    }
                } else {
                    None
                }
            },
            _ => None,
        }
    }
}

/// `( head arg … )` at `j`.
pub open spec fn p_dynamic(chars: Seq<char>, floats: Seq<u64>, j: int, used: nat) -> Option<
    (Tree, int, nat),
>
    decreases chars.len() + 3 - j, 0int,
{
    let k = skip_to(chars, j + 1, CharClass::Space);
    if 0 <= j < chars.len() && chars[j] == '(' && j < k <= chars.len() + 2 {
        match p_value(chars, floats, k, used) {
            Some((head, k2, u2)) => {
                let k3 = skip_to(chars, k2, CharClass::Space);
                if j < k3 <= chars.len() + 2 {
                    p_args(chars, floats, k3, u2, seq![head])
                } else {
                    None
                }
            },
            None => None,
        }
    } else {
        None
    }
}

/// The operands from `k` up to `)`, after those in `acc`.
pub open spec fn p_args(chars: Seq<char>, floats: Seq<u64>, k: int, used: nat, acc: Seq<Tree>) -> Option<
    (Tree, int, nat),
>
    decreases chars.len() + 3 - k, 2int,
{
    if 0 <= k < chars.len() && chars[k] == ')' {
        Some((Tree::Dynamic(acc, Seq::empty(), Seq::empty()), k + 1, used))
    } else {
        match p_value(chars, floats, k, used) {
            Some((v, k2, u2)) => {
                let k3 = skip_to(chars, k2, CharClass::Space);
                if k < k3 <= chars.len() + 2 {
                    p_args(chars, floats, k3, u2, acc.push(v))
                } else {
                    None
                }
            },
            None => None,
        }
    }
}

/// A character-level reader of JSON++, over the bytes of a file read as characters.
pub struct Parser {
    pub chars: Vec<char>,
    pub index: usize,
    /// Values of the fractional numbers, in the order they occur.
    pub floats: Vec<u64>,
    /// How many of `floats` have been used.
    pub used_floats: usize,
}

impl Parser {
    /// The reader's position is at most two past the end (a comment can run past it).
    pub open spec fn wf(&self) -> bool {
        self.index <= self.chars@.len() + 2 && self.chars@.len() + 2 <= usize::MAX
    }

    /// A reader at the start of `bytes`, each byte read as the character of that number.
    pub fn from(bytes: Vec<u8>) -> (r: Parser)
        ensures
            r.chars@ == crate::evaluation::latin1(bytes@),
            r.index == 0,
            r.floats@.len() == 0,
            r.used_floats == 0,
    {
        Parser::with_floats(bytes, Vec::new())
    }

    /// A reader at the start of `bytes` that gives its fractional numbers the values `floats`.
    pub fn with_floats(bytes: Vec<u8>, floats: Vec<u64>) -> (r: Parser)
        ensures
            r.chars@ == crate::evaluation::latin1(bytes@),
            r.index == 0,
            r.floats@ == floats@,
            r.used_floats == 0,
    {
        let mut chars: Vec<char> = Vec::new();
        let mut i: usize = 0;
        while i < bytes.len()
            invariant
                i <= bytes@.len(),
                chars@ == crate::evaluation::latin1(bytes@).take(i as int),
            decreases bytes@.len() - i,
        {
            chars.push(bytes[i] as char);
            i = i + 1;
            assert(chars@ =~= crate::evaluation::latin1(bytes@).take(i as int));
        }
        assert(crate::evaluation::latin1(bytes@).take(i as int) =~= crate::evaluation::latin1(
            bytes@,
        ));
        Parser { chars, index: 0, floats, used_floats: 0 }
    }

    /// The character at the position, if any.
    pub fn current(&self) -> (r: Option<char>)
        ensures
            self.index < self.chars@.len() ==> r == Some(self.chars@[self.index as int]),
            self.index >= self.chars@.len() ==> r is None,
    {
        if self.index < self.chars.len() {
            Some(self.chars[self.index])
        } else {
            None
        }
    }

    /// The input from the position on.
    pub fn rest(&self) -> (r: Vec<char>)
        ensures
            self.index < self.chars@.len() ==> r@ == self.chars@.skip(self.index as int),
            self.index >= self.chars@.len() ==> r@.len() == 0,
    {
        let mut r: Vec<char> = Vec::new();
        let mut i: usize = self.index;
        if i >= self.chars.len() {
            return r;
        }
        while i < self.chars.len()
            invariant
                self.index <= i <= self.chars@.len(),
                r@ == self.chars@.subrange(self.index as int, i as int),
            decreases self.chars@.len() - i,
        {
            r.push(self.chars[i]);
            i = i + 1;
            assert(r@ =~= self.chars@.subrange(self.index as int, i as int));
        }
        assert(r@ =~= self.chars@.skip(self.index as int));
        r
    }

    /// Whether the input from the position agrees with `to_match` as far as both go (at
    /// the end of the input, a longer pattern agrees).
    pub fn starts_with(&self, to_match: &str) -> (r: bool)
        ensures
            r == agrees(self.chars@, self.index as int, to_match@),
    {
        let n = to_match.unicode_len();
        if self.index >= self.chars.len() {
            return true;
        }
        let start = self.index;
        let mut k: usize = start;
        while k < self.chars.len() && k - start < n
            invariant
                n == to_match@.len(),
                start == self.index,
                start <= k <= self.chars@.len(),
                k - start <= n,
                forall|m: int| 0 <= m < k - start ==> self.chars@[start + m] == to_match@[m],
            decreases self.chars@.len() - k,
        {
            if self.chars[k] != to_match.get_char(k - start) {
                return false;
            }
            k = k + 1;
        }
        true
    }

    /// Moves past characters of the class and past comments (`//` to the end of the line,
    /// `/*` to the next `*/`); stops at the first other character or the end.
    pub fn skip(&mut self, cond: CharClass)
        requires
            old(self).wf(),
        ensures
            final(self).wf(),
            final(self).chars@ == old(self).chars@,
            final(self).floats@ == old(self).floats@,
            final(self).used_floats == old(self).used_floats,
            final(self).index >= old(self).index,
            final(self).index == skip_to(old(self).chars@, old(self).index as int, cond),
            final(self).index < final(self).chars@.len() ==> !in_class(
                cond,
                final(self).chars@[final(self).index as int],
            ) && !agrees(final(self).chars@, final(self).index as int, "//"@) && !agrees(
                final(self).chars@,
                final(self).index as int,
                "/*"@,
            ),
    {
        let ghost start = self.index;
        while self.index < self.chars.len()
            invariant
                self.wf(),
                self.chars@ == old(self).chars@,
                self.floats@ == old(self).floats@,
                self.used_floats == old(self).used_floats,
                self.index >= start,
                start == old(self).index,
                skip_to(self.chars@, start as int, cond) == skip_to(
                    self.chars@,
                    self.index as int,
                    cond,
                ),
            decreases self.chars@.len() + 2 - self.index,
        {
            let ch = self.chars[self.index];
            let ghost before = self.index;
            proof {
                lemma_ends(self.chars@, before as int);
            }
            if self.starts_with("//") {
                while !self.starts_with("\n")
                    invariant
                        before <= self.index <= self.chars@.len(),
                        before < self.chars@.len(),
                        line_end(self.chars@, before as int) == line_end(
                            self.chars@,
                            self.index as int,
                        ),
                        self.chars@.len() + 2 <= usize::MAX,
                        self.chars@ == old(self).chars@,
                        self.floats@ == old(self).floats@,
                        self.used_floats == old(self).used_floats,
                        self.index >= start,
                    decreases self.chars@.len() - self.index,
                {
                    proof {
                        if self.index >= self.chars@.len() {
                            assert(agrees(self.chars@, self.index as int, "\n"@));
                        }
                    }
                    self.index = self.index + 1;
                }
                self.index = self.index + 1;
                continue;
            }
            if self.starts_with("/*") {
                while !self.starts_with("*/")
                    invariant
                        before <= self.index <= self.chars@.len(),
                        before < self.chars@.len(),
                        block_end(self.chars@, before as int) == block_end(
                            self.chars@,
                            self.index as int,
                        ),
                        self.chars@.len() + 2 <= usize::MAX,
                        self.chars@ == old(self).chars@,
                        self.floats@ == old(self).floats@,
                        self.used_floats == old(self).used_floats,
                        self.index >= start,
                    decreases self.chars@.len() - self.index,
                {
                    proof {
                        if self.index >= self.chars@.len() {
                            assert(agrees(self.chars@, self.index as int, "*/"@));
                        }
                    }
                    self.index = self.index + 1;
                }
                self.index = self.index + 2;
                continue;
            }
            if in_class_exec(cond, ch) {
                self.index = self.index + 1;
            } else {
                return;
            }
        }
    }

    /// Skips whitespace and comments.
    pub fn skip_whitespace(&mut self)
        requires
            old(self).wf(),
        ensures
            final(self).wf(),
            final(self).chars@ == old(self).chars@,
            final(self).floats@ == old(self).floats@,
            final(self).used_floats == old(self).used_floats,
            final(self).index >= old(self).index,
            final(self).index == skip_to(old(self).chars@, old(self).index as int, CharClass::Space),
            final(self).index < final(self).chars@.len() ==> !in_class(
                CharClass::Space,
                final(self).chars@[final(self).index as int],
            ),
    {
        self.skip(CharClass::Space);
    }

    /// Skips whitespace, commas and comments: the gap between two elements.
    pub fn skip_to_next_iterable(&mut self)
        requires
            old(self).wf(),
        ensures
            final(self).wf(),
            final(self).chars@ == old(self).chars@,
            final(self).floats@ == old(self).floats@,
            final(self).used_floats == old(self).used_floats,
            final(self).index >= old(self).index,
            final(self).index == skip_to(old(self).chars@, old(self).index as int, CharClass::SpaceOrComma),
            final(self).index < final(self).chars@.len() ==> !in_class(
                CharClass::SpaceOrComma,
                final(self).chars@[final(self).index as int],
            ),
    {
        self.skip(CharClass::SpaceOrComma);
    }

    /// Collects the characters of the class from the position on.
    pub fn take_while(&mut self, cond: CharClass) -> (r: Vec<char>)
        requires
            old(self).wf(),
        ensures
            final(self).wf(),
            final(self).chars@ == old(self).chars@,
            final(self).floats@ == old(self).floats@,
            final(self).used_floats == old(self).used_floats,
            old(self).index <= final(self).index,
            old(self).index < old(self).chars@.len() ==> final(self).index <= final(self).chars@.len()
                && r@ == old(self).chars@.subrange(old(self).index as int, final(self).index as int),
            old(self).index >= old(self).chars@.len() ==> r@.len() == 0 && final(self).index
                == old(self).index,
            forall|k: int| 0 <= k < r@.len() ==> in_class(cond, #[trigger] r@[k]),
            final(self).index == class_end(old(self).chars@, old(self).index as int, cond),
            final(self).index < final(self).chars@.len() ==> !in_class(
                cond,
                final(self).chars@[final(self).index as int],
            ),
    {
        let mut coll: Vec<char> = Vec::new();
        if self.index >= self.chars.len() {
            return coll;
        }
        let ghost start = self.index;
        let mut going = true;
        while going && self.index < self.chars.len()
            invariant
                start <= self.index <= self.chars@.len(),
                start == old(self).index,
                self.wf(),
                self.chars@ == old(self).chars@,
                self.floats@ == old(self).floats@,
                self.used_floats == old(self).used_floats,
                coll@ == self.chars@.subrange(start as int, self.index as int),
                forall|k: int| 0 <= k < coll@.len() ==> in_class(cond, #[trigger] coll@[k]),
                !going ==> self.index < self.chars@.len() && !in_class(
                    cond,
                    self.chars@[self.index as int],
                ),
                class_end(self.chars@, start as int, cond) == class_end(
                    self.chars@,
                    self.index as int,
                    cond,
                ),
            decreases self.chars@.len() - self.index, if going { 1int } else { 0int },
        {
            let ch = self.chars[self.index];
            if in_class_exec(cond, ch) {
                coll.push(ch);
                self.index = self.index + 1;
                assert(coll@ =~= self.chars@.subrange(start as int, self.index as int));
            } else {
                going = false;
            }
        }
        coll
    }
}

impl Parser {
    /// What every reading step keeps: a well-formed reader over the same input.
    pub open spec fn keeps(&self, before: &Parser) -> bool {
        &&& self.wf()
        &&& self.chars@ == before.chars@
        &&& self.floats@ == before.floats@
        &&& self.index >= before.index
        &&& self.used_floats >= before.used_floats
    }

    /// Reads one value at the position, after whitespace and comments.
    pub fn parse(&mut self) -> (r: Result<JsonPP, EvalError>)
        requires
            old(self).wf(),
        ensures
            final(self).keeps(old(self)),
            r is Ok ==> final(self).index > old(self).index,
            r matches Ok(v) ==> p_value(
                old(self).chars@,
                old(self).floats@,
                old(self).index as int,
                old(self).used_floats as nat,
            ) == Some((v@, final(self).index as int, final(self).used_floats as nat)),
            r is Err ==> p_value(
                old(self).chars@,
                old(self).floats@,
                old(self).index as int,
                old(self).used_floats as nat,
            ) is None,
        decreases old(self).chars@.len() + 2 - old(self).index, 1int,
    {
        self.skip_whitespace();
        let first_char = match self.current() {
            Some(c) => c,
            None => {
                return Err(EvalError::ParseError);
            },
        };
        if first_char == '[' {
            self.parse_array()
        } else if first_char == '{' {
            self.parse_object()
        } else if first_char == '(' {
            self.parse_dynamic()
        } else if first_char == '"' {
            self.parse_string()
        } else if ('0' <= first_char && first_char <= '9') || first_char == '-' {
            self.parse_number()
        } else {
            self.parse_other()
        }
    }

    /// Expects `c` at the position and moves past it.
    fn expect(&mut self, c: char) -> (r: Result<(), EvalError>)
        requires
            old(self).wf(),
        ensures
            final(self).keeps(old(self)),
            r is Ok ==> old(self).index < old(self).chars@.len() && old(self).chars@[old(
                self,
            ).index as int] == c && final(self).index == old(self).index + 1,
            r is Err ==> final(self).index == old(self).index,
            final(self).used_floats == old(self).used_floats,
            r is Ok <==> (old(self).index < old(self).chars@.len() && old(self).chars@[old(
                self,
            ).index as int] == c),
    {
        if self.index < self.chars.len() && self.chars[self.index] == c {
            self.index = self.index + 1;
            Ok(())
        } else {
            Err(EvalError::ParseError)
        }
    }

    /// Reads `[ value … ]`; commas between values are optional.
    pub fn parse_array(&mut self) -> (r: Result<JsonPP, EvalError>)
        requires
            old(self).wf(),
        ensures
            final(self).keeps(old(self)),
            r is Ok ==> final(self).index > old(self).index,
            r matches Ok(v) ==> p_array(
                old(self).chars@,
                old(self).floats@,
                old(self).index as int,
                old(self).used_floats as nat,
            ) == Some((v@, final(self).index as int, final(self).used_floats as nat)),
            r is Err ==> p_array(
                old(self).chars@,
                old(self).floats@,
                old(self).index as int,
                old(self).used_floats as nat,
            ) is None,
            r matches Ok(v) ==> v is Array,
        decreases old(self).chars@.len() + 2 - old(self).index, 0int,
    {
        self.expect('[')?;
        let ghost start = self.index;
        self.skip_whitespace();
        let mut coll: Vec<JsonPP> = Vec::new();
        let ghost goal = p_array(
            old(self).chars@,
            old(self).floats@,
            old(self).index as int,
            old(self).used_floats as nat,
        );
        assert(trees(coll@) =~= Seq::<Tree>::empty());
        while self.current() != Some(']')
            invariant
                self.keeps(old(self)),
                self.index >= start,
                start == old(self).index + 1,
                goal == p_array(
                    old(self).chars@,
                    old(self).floats@,
                    old(self).index as int,
                    old(self).used_floats as nat,
                ),
                goal == p_items(
                    self.chars@,
                    self.floats@,
                    self.index as int,
                    self.used_floats as nat,
                    trees(coll@),
                ),
            decreases self.chars@.len() + 2 - self.index,
        {
            let v = self.parse()?;
            let ghost before = coll@;
            coll.push(v);
            assert(trees(coll@) =~= trees(before).push(v@));
            self.skip_to_next_iterable();
        }
        self.expect(']')?;
        Ok(JsonPP::Array(coll))
    }

    /// Reads `{ "key": value … }`; a later key wins.
    pub fn parse_object(&mut self) -> (r: Result<JsonPP, EvalError>)
        requires
            old(self).wf(),
        ensures
            final(self).keeps(old(self)),
            r is Ok ==> final(self).index > old(self).index,
            r matches Ok(v) ==> p_object(
                old(self).chars@,
                old(self).floats@,
                old(self).index as int,
                old(self).used_floats as nat,
            ) == Some((v@, final(self).index as int, final(self).used_floats as nat)),
            r is Err ==> p_object(
                old(self).chars@,
                old(self).floats@,
                old(self).index as int,
                old(self).used_floats as nat,
            ) is None,
            r matches Ok(v) ==> v is Object,
        decreases old(self).chars@.len() + 2 - old(self).index, 0int,
    {
        self.expect('{')?;
        let ghost start = self.index;
        self.skip_whitespace();
        let mut coll: Vec<(Vec<char>, JsonPP)> = Vec::new();
        let ghost goal = p_object(
            old(self).chars@,
            old(self).floats@,
            old(self).index as int,
            old(self).used_floats as nat,
        );
        assert(members(coll@) =~= Seq::<(Seq<char>, Tree)>::empty());
        while self.current() != Some('}')
            invariant
                self.keeps(old(self)),
                self.index >= start,
                start == old(self).index + 1,
                goal == p_object(
                    old(self).chars@,
                    old(self).floats@,
                    old(self).index as int,
                    old(self).used_floats as nat,
                ),
                goal == p_members(
                    self.chars@,
                    self.floats@,
                    self.index as int,
                    self.used_floats as nat,
                    members(coll@),
                ),
            decreases self.chars@.len() + 2 - self.index,
        {
            let key = match self.parse_string()? {
                JsonPP::String(k) => k,
                _ => {
                    return Err(EvalError::ParseError);
                },
            };
            self.skip(CharClass::SpaceOrColon);
            let value = self.parse()?;
            crate::builtins::upsert_exec(&mut coll, &key, &value);
            self.skip_to_next_iterable();
        }
        self.expect('}')?;
        Ok(JsonPP::Object(coll))
    }

    /// Reads a quoted string; a `"` after an odd run of backslashes does not end it. The
    /// value is the text between the quotes with its escapes applied.
    pub fn parse_string(&mut self) -> (r: Result<JsonPP, EvalError>)
        requires
            old(self).wf(),
        ensures
            final(self).keeps(old(self)),
            r is Ok ==> final(self).index > old(self).index,
            r matches Ok(v) ==> p_string(old(self).chars@, old(self).index as int) == Some(
                (v@, final(self).index as int),
            ),
            r is Err ==> p_string(old(self).chars@, old(self).index as int) is None,
            final(self).used_floats == old(self).used_floats,
    {
        if !(self.index < self.chars.len() && self.chars[self.index] == '"') {
            return Err(EvalError::ParseError);
        }
        self.expect('"')?;
        let start = self.index;
        let mut body: Vec<char> = Vec::new();
        let mut being_escaped = false;
        let mut going = true;
        while going && self.index < self.chars.len()
            invariant
                self.keeps(old(self)),
                self.used_floats == old(self).used_floats,
                start == old(self).index + 1,
                start <= self.index <= self.chars@.len(),
                body@ == self.chars@.subrange(start as int, self.index as int),
                being_escaped == (trailing_backslashes(body@) % 2 == 1),
                forall|k: int|
                    start <= k < self.index && self.chars@[k] == '"' ==> trailing_backslashes(
                        self.chars@.subrange(start as int, k),
                    ) % 2 == 1,
                !going ==> self.index < self.chars@.len() && self.chars@[self.index as int] == '"'
                    && !being_escaped,
                going ==> string_end(self.chars@, start as int, start as int) == string_end(
                    self.chars@,
                    start as int,
                    self.index as int,
                ),
                !going ==> string_end(self.chars@, start as int, start as int) == self.index,
            decreases self.chars@.len() - self.index, if going { 1int } else { 0int },
        {
            let ch = self.chars[self.index];
            if ch == '"' && !being_escaped {
                going = false;
            } else {
                let ghost before = body@;
                body.push(ch);
                proof {
                    assert(body@.drop_last() =~= before);
                    assert(body@.last() == ch);
                }
                if ch == '\\' {
                    being_escaped = !being_escaped;
                } else {
                    being_escaped = false;
                }
                self.index = self.index + 1;
                assert(body@ =~= self.chars@.subrange(start as int, self.index as int));
            }
        }
        let end = self.index;
        if going {
            assert(string_end(self.chars@, start as int, self.index as int) == self.index);
            return Err(EvalError::ParseError);
        }
        let out = JsonPP::String(handle_escapes(&body));
        self.expect('"')?;
        assert(end == self.index - 1);
        Ok(out)
    }

    /// Reads a number: a whole number, or with `.` or `e` a fractional one, whose value is
    /// the next of `floats`.
    pub fn parse_number(&mut self) -> (r: Result<JsonPP, EvalError>)
        requires
            old(self).wf(),
        ensures
            final(self).keeps(old(self)),
            r is Ok ==> final(self).index > old(self).index,
            r matches Ok(v) ==> p_number(
                old(self).chars@,
                old(self).floats@,
                old(self).index as int,
                old(self).used_floats as nat,
            ) == Some((v@, final(self).index as int, final(self).used_floats as nat)),
            r is Err ==> p_number(
                old(self).chars@,
                old(self).floats@,
                old(self).index as int,
                old(self).used_floats as nat,
            ) is None,
    {
        let text = self.take_while(CharClass::NumberChar);
        if text.len() == 0 {
            return Err(EvalError::ParseError);
        }
        let mut frac = false;
        let mut i: usize = 0;
        while i < text.len()
            invariant
                i <= text@.len(),
                frac == exists|m: int| 0 <= m < i && (text@[m] == '.' || text@[m] == 'e' || text@[m] == 'E'),
            decreases text@.len() - i,
        {
            if text[i] == '.' || text[i] == 'e' || text[i] == 'E' {
                frac = true;
            }
            i = i + 1;
        }
        assert(frac == fractional(text@));
        if frac {
            if self.used_floats < self.floats.len() {
                let f = self.floats[self.used_floats];
                self.used_floats = self.used_floats + 1;
                Ok(JsonPP::Float(f))
            } else {
                Err(EvalError::ParseError)
            }
        } else {
            match parse_i64(&text) {
                Some(n) => Ok(JsonPP::Int(n)),
                None => Err(EvalError::ParseError),
            }
        }
    }

    /// Reads `( head arg … )`.
    pub fn parse_dynamic(&mut self) -> (r: Result<JsonPP, EvalError>)
        requires
            old(self).wf(),
        ensures
            final(self).keeps(old(self)),
            r is Ok ==> final(self).index > old(self).index,
            r matches Ok(v) ==> p_dynamic(
                old(self).chars@,
                old(self).floats@,
                old(self).index as int,
                old(self).used_floats as nat,
            ) == Some((v@, final(self).index as int, final(self).used_floats as nat)),
            r is Err ==> p_dynamic(
                old(self).chars@,
                old(self).floats@,
                old(self).index as int,
                old(self).used_floats as nat,
            ) is None,
            r matches Ok(v) ==> v matches JsonPP::Dynamic(d) && d.args@.len() >= 1,
        decreases old(self).chars@.len() + 2 - old(self).index, 0int,
    {
        self.expect('(')?;
        let ghost start = self.index;
        self.skip_whitespace();
        let callable = self.parse()?;
        self.skip_whitespace();
        let ghost head = callable@;
        let mut args: Vec<JsonPP> = vec![callable];
        assert(trees(args@) =~= seq![head]);
        let ghost goal = p_dynamic(
            old(self).chars@,
            old(self).floats@,
            old(self).index as int,
            old(self).used_floats as nat,
        );
        while self.current() != Some(')')
            invariant
                self.keeps(old(self)),
                self.index > start,
                start == old(self).index + 1,
                args@.len() >= 1,
                goal == p_dynamic(
                    old(self).chars@,
                    old(self).floats@,
                    old(self).index as int,
                    old(self).used_floats as nat,
                ),
                goal == p_args(
                    self.chars@,
                    self.floats@,
                    self.index as int,
                    self.used_floats as nat,
                    trees(args@),
                ),
            decreases self.chars@.len() + 2 - self.index,
        {
            let v = self.parse()?;
            let ghost before = args@;
            args.push(v);
            assert(trees(args@) =~= trees(before).push(v@));
            self.skip_whitespace();
        }
        self.expect(')')?;
        let path: Vec<PathChunk> = Vec::new();
        let dependencies: Vec<Vec<PathChunk>> = Vec::new();
        assert(path_view(path@) =~= Seq::<Chunk>::empty());
        assert(paths(dependencies@) =~= Seq::<Seq<Chunk>>::empty());
        Ok(JsonPP::Dynamic(Dynamic { args, path, dependencies }))
    }

    /// Reads `true`, `false`, `null`, `undefined`, or an identifier of letters and `_`.
    pub fn parse_other(&mut self) -> (r: Result<JsonPP, EvalError>)
        requires
            old(self).wf(),
        ensures
            final(self).keeps(old(self)),
            r is Ok ==> final(self).index > old(self).index,
            r matches Ok(v) ==> p_other(old(self).chars@, old(self).index as int) == Some(
                (v@, final(self).index as int),
            ),
            r is Err ==> p_other(old(self).chars@, old(self).index as int) is None,
            final(self).used_floats == old(self).used_floats,
    {
        if self.index < self.chars.len() {
            if self.starts_with("true") && self.chars.len() - self.index >= 4 {
                self.index = self.index + 4;
                return Ok(JsonPP::Bool(true));
            }
            if self.starts_with("false") && self.chars.len() - self.index >= 5 {
                self.index = self.index + 5;
                return Ok(JsonPP::Bool(false));
            }
            if self.starts_with("null") && self.chars.len() - self.index >= 4 {
                self.index = self.index + 4;
                return Ok(JsonPP::Null);
            }
            if self.starts_with("undefined") && self.chars.len() - self.index >= 9 {
                self.index = self.index + 9;
                return Ok(JsonPP::Undefined);
            }
        }
        let val = self.take_while(CharClass::WordChar);
        if val.len() == 0 {
            return Err(EvalError::ParseError);
        }
        Ok(JsonPP::Identifier(val))
    }
}

/// Applies the escapes of a string body (see `unescape`).
pub fn handle_escapes(input: &Vec<char>) -> (r: Vec<char>)
    ensures
        r@ == unescape(input@),
{
    crate::tokenizing::handle_escape_characters(input)
}

} // verus!
