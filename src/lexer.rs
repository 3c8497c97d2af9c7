use vstd::prelude::*;
use vstd::utf8::{valid_utf8, decode_utf8};
use crate::error::{Error, ErrorHandler, Loc, pos_le};

verus! {

/// The kinds of token.
#[derive(PartialEq, Eq, Structural, Clone, Copy, Debug)]
pub enum TokenSort {
    TokenId,
    TokenString,
    TokenNumber,
    TokenEq,
    TokenPlus,
    TokenQmark,
    TokenPrint,
    TokenBody,
    TokenGet,
    TokenPost,
    TokenPut,
    TokenDelete,
}

/// A located token with its text.
#[derive(Debug)]
pub struct Token {
    pub sort: TokenSort,
    pub loc: Loc,
    pub content: String,
}

pub open spec fn is_alpha_byte(b: u8) -> bool {
    (65 <= b <= 90) || (97 <= b <= 122)
}

pub open spec fn is_digit_byte(b: u8) -> bool {
    48 <= b <= 57
}

pub open spec fn is_alpha_char(c: char) -> bool {
    ('A' <= c <= 'Z') || ('a' <= c <= 'z')
}

pub open spec fn is_digit_char(c: char) -> bool {
    '0' <= c <= '9'
}

/// The kind of a run of letters: a reserved word, in lower or upper case,
/// or else an identifier.
pub open spec fn word_sort(s: Seq<char>) -> TokenSort {
    if s == seq!['p', 'r', 'i', 'n', 't'] {
        TokenSort::TokenPrint
    } else if s == seq!['b', 'o', 'd', 'y'] {
        TokenSort::TokenBody
    } else if s == seq!['g', 'e', 't'] || s == seq!['G', 'E', 'T'] {
        TokenSort::TokenGet
    } else if s == seq!['p', 'o', 's', 't'] || s == seq!['P', 'O', 'S', 'T'] {
        TokenSort::TokenPost
    } else if s == seq!['p', 'u', 't'] || s == seq!['P', 'U', 'T'] {
        TokenSort::TokenPut
    } else if s == seq!['d', 'e', 'l', 'e', 't', 'e'] || s == seq!['D', 'E', 'L', 'E', 'T', 'E'] {
        TokenSort::TokenDelete
    } else {
        TokenSort::TokenId
    }
}

/// What a token of each kind holds as text.
pub open spec fn token_text_fits(t: Token) -> bool {
    match t.sort {
        TokenSort::TokenEq => t.content@ == seq!['='],
        TokenSort::TokenPlus => t.content@ == seq!['+'],
        TokenSort::TokenQmark => t.content@ == seq!['?'],
        TokenSort::TokenString => true,
        TokenSort::TokenNumber => t.content@.len() > 0
            && forall|i: int| 0 <= i < t.content@.len() ==> is_digit_char(#[trigger] t.content@[i]),
        _ => t.content@.len() > 0
            && (forall|i: int| 0 <= i < t.content@.len() ==> is_alpha_char(#[trigger] t.content@[i]))
            && word_sort(t.content@) == t.sort,
    }
}

/// Relies on String::push: the character is appended at the end.
#[verifier::external_body]
fn push_char(s: &mut String, c: char)
    ensures
        final(s)@ == old(s)@.push(c),
{
    s.push(c)
}

/// Relies on String::from_utf8: it succeeds exactly on valid UTF-8 and then
/// holds the decoded characters.
#[verifier::external_body]
fn string_from_utf8(b: Vec<u8>) -> (r: Option<String>)
    ensures
        r is Some <==> valid_utf8(b@),
        r matches Some(s) ==> s@ == decode_utf8(b@),
{
    String::from_utf8(b).ok()
}

/// Whether `w` holds exactly the characters of `k`.
fn same_word(w: &Vec<char>, k: Vec<char>) -> (r: bool)
    ensures
        r == (w@ == k@),
{
    if w.len() != k.len() {
        return false;
    }
    let mut i: usize = 0;
    while i < w.len()
        invariant
            w@.len() == k@.len(),
            i <= w@.len(),
            forall|j: int| 0 <= j < i ==> w@[j] == k@[j],
        decreases w@.len() - i,
    {
        if w[i] != k[i] {
            return false;
        }
        i = i + 1;
    }
    assert(w@ =~= k@);
    true
}

/// The kind of a run of letters, as `word_sort` gives it.
fn sort_of_word(w: &Vec<char>) -> (r: TokenSort)
    ensures
        r == word_sort(w@),
{
    if same_word(w, vec!['p', 'r', 'i', 'n', 't']) {
        TokenSort::TokenPrint
    } else if same_word(w, vec!['b', 'o', 'd', 'y']) {
        TokenSort::TokenBody
    } else if same_word(w, vec!['g', 'e', 't']) || same_word(w, vec!['G', 'E', 'T']) {
        TokenSort::TokenGet
    } else if same_word(w, vec!['p', 'o', 's', 't']) || same_word(w, vec!['P', 'O', 'S', 'T']) {
        TokenSort::TokenPost
    } else if same_word(w, vec!['p', 'u', 't']) || same_word(w, vec!['P', 'U', 'T']) {
        TokenSort::TokenPut
    } else if same_word(w, vec!['d', 'e', 'l', 'e', 't', 'e']) || same_word(
        w,
        vec!['D', 'E', 'L', 'E', 'T', 'E'],
    ) {
        TokenSort::TokenDelete
    } else {
        TokenSort::TokenId
    }
}

/// The whole input: the lines one after the other.
pub open spec fn flat(lines: Seq<Vec<u8>>) -> Seq<u8>
    decreases lines.len(),
{
    if lines.len() == 0 {
        Seq::empty()
    } else {
        flat(lines.drop_last()) + lines.last()@
    }
}

/// Where byte `j` of line `k` stands in the whole input.
proof fn lemma_flat_index(lines: Seq<Vec<u8>>, k: int, j: int)
    requires
        0 <= k < lines.len(),
        0 <= j < lines[k]@.len(),
    ensures
        flat(lines.subrange(0, k)).len() + j < flat(lines).len(),
        flat(lines)[flat(lines.subrange(0, k)).len() + j] == lines[k]@[j],
    decreases lines.len(),
{
    if k == lines.len() - 1 {
        assert(lines.drop_last() =~= lines.subrange(0, k));
    } else {
        let d = lines.drop_last();
        lemma_flat_index(d, k, j);
        assert(d.subrange(0, k) =~= lines.subrange(0, k));
    }
}

/// Lines as a line reader hands them out: none is empty, each but the last
/// ends with a line break, and no line holds one anywhere else.
pub open spec fn lines_ok(lines: Seq<Vec<u8>>) -> bool {
    &&& forall|k: int| 0 <= k < lines.len() ==> (#[trigger] lines[k])@.len() > 0
        && (k < lines.len() - 1 ==> lines[k]@.last() == 10u8)
    &&& forall|k: int, j: int| 0 <= k < lines.len() && 0 <= j < lines[k]@.len() - 1 ==> (#[trigger] lines[k]@[j]) != 10u8
}

/// The byte that a backslash followed by `x` stands for: `n` a line break,
/// `t` a tab, any other byte itself.
pub open spec fn escaped(x: u8) -> u8 {
    if x == 110 {
        10
    } else if x == 116 {
        9
    } else {
        x
    }
}

/// The body of a string literal that starts at index `i` of `text`: the
/// bytes it stands for, escapes translated, and the index where it ends. It
/// ends at its closing `quote`, or unclosed at a line break (a backslash just
/// before one escapes nothing) or at the end of the text.
pub open spec fn scan_from(text: Seq<u8>, i: int, quote: u8) -> (Seq<u8>, int)
    decreases text.len() - i,
{
    if i < 0 || i >= text.len() {
        (Seq::empty(), text.len() as int)
    } else if text[i] == quote || text[i] == 10 {
        (Seq::empty(), i)
    } else if text[i] == 92 {
        if i + 1 < text.len() && text[i + 1] != 10 {
            let (b, e) = scan_from(text, i + 2, quote);
            (seq![escaped(text[i + 1])] + b, e)
        } else {
            (Seq::empty(), i + 1)
        }
    } else {
        let (b, e) = scan_from(text, i + 1, quote);
        (seq![text[i]] + b, e)
    }
}

/// How many escape warnings the body of a string literal starting at index
/// `i` gives: one for each backslash followed by a byte other than `n`, `t`,
/// `"` or a backslash, and one for a backslash with nothing after it on its
/// line.
pub open spec fn escape_warnings(text: Seq<u8>, i: int, quote: u8) -> nat
    decreases text.len() - i,
{
    if i < 0 || i >= text.len() || text[i] == quote || text[i] == 10 {
        0
    } else if text[i] == 92 {
        if i + 1 < text.len() && text[i + 1] != 10 {
            let x = text[i + 1];
            (if x == 110 || x == 116 || x == 34 || x == 92 { 0nat } else { 1nat }) + escape_warnings(text, i + 2, quote)
        } else {
            1
        }
    } else {
        escape_warnings(text, i + 1, quote)
    }
}

/// How many escape warnings `errs` holds from index `from` on.
pub open spec fn count_escape_warnings(errs: Seq<Error>, from: int) -> nat
    decreases errs.len(),
{
    if errs.len() <= from || errs.len() == 0 {
        0
    } else {
        count_escape_warnings(errs.drop_last(), from) + (if errs.last() is WarningEscapeSeq { 1nat } else { 0nat })
    }
}

/// Entries added after `b` that are no escape warnings do not change the count.
proof fn lemma_count_other(a: Seq<Error>, b: Seq<Error>, from: int)
    requires
        0 <= from <= b.len() <= a.len(),
        forall|k: int| 0 <= k < b.len() ==> a[k] == b[k],
        forall|k: int| b.len() <= k < a.len() ==> !(#[trigger] a[k] is WarningEscapeSeq),
    ensures
        count_escape_warnings(a, from) == count_escape_warnings(b, from),
    decreases a.len(),
{
    if a.len() > b.len() {
        lemma_count_other(a.drop_last(), b, from);
    } else {
        assert(a =~= b);
    }
}

/// One more entry adds one to the count exactly when it is an escape warning.
proof fn lemma_count_push(errs: Seq<Error>, e: Error, from: int)
    requires
        0 <= from <= errs.len(),
    ensures
        count_escape_warnings(errs.push(e), from)
            == count_escape_warnings(errs, from) + (if e is WarningEscapeSeq { 1nat } else { 0nat }),
{
    assert(errs.push(e).drop_last() =~= errs);
}

/// Whether the string literal whose body ends at `e` is closed there.
pub open spec fn closed_at(text: Seq<u8>, e: int, quote: u8) -> bool {
    0 <= e < text.len() && text[e] == quote
}

/// How many letters follow from index `i` on.
pub open spec fn alpha_run(text: Seq<u8>, i: int) -> nat
    decreases text.len() - i,
{
    if 0 <= i < text.len() && is_alpha_byte(text[i]) {
        1 + alpha_run(text, i + 1)
    } else {
        0
    }
}

/// How many digits follow from index `i` on.
pub open spec fn digit_run(text: Seq<u8>, i: int) -> nat
    decreases text.len() - i,
{
    if 0 <= i < text.len() && is_digit_byte(text[i]) {
        1 + digit_run(text, i + 1)
    } else {
        0
    }
}

/// How many bytes are left on the line from index `i` on, its line break
/// included.
pub open spec fn line_rest(text: Seq<u8>, i: int) -> nat
    decreases text.len() - i,
{
    if 0 <= i < text.len() {
        if text[i] == 10 {
            1
        } else {
            1 + line_rest(text, i + 1)
        }
    } else {
        0
    }
}

/// What a string body stands for as text: the decoded bytes, or nothing
/// where they are not valid UTF-8.
pub open spec fn decoded_or_empty(b: Seq<u8>) -> Seq<char> {
    if valid_utf8(b) {
        decode_utf8(b)
    } else {
        Seq::empty()
    }
}

/// The tokens of `text` from index `i` on, each as its kind and text.
pub open spec fn tokens_of(text: Seq<u8>, i: int) -> Seq<(TokenSort, Seq<char>)>
    decreases text.len() - i,
{
    if i < 0 || i >= text.len() {
        Seq::empty()
    } else {
        let b = text[i];
        if b == 32 || b == 9 {
            tokens_of(text, i + 1)
        } else if b == 35 {
            let n = i + 1 + line_rest(text, i + 1);
            if n <= text.len() {
                tokens_of(text, n)
            } else {
                Seq::empty()
            }
        } else if b == 61 {
            seq![(TokenSort::TokenEq, seq!['='])] + tokens_of(text, i + 1)
        } else if b == 43 {
            seq![(TokenSort::TokenPlus, seq!['+'])] + tokens_of(text, i + 1)
        } else if b == 63 {
            seq![(TokenSort::TokenQmark, seq!['?'])] + tokens_of(text, i + 1)
        } else if b == 34 || b == 39 {
            let (body, e) = scan_from(text, i + 1, b);
            let next = if i < e && closed_at(text, e, b) {
                e + 1
            } else if i < e <= text.len() {
                e
            } else {
                text.len() as int
            };
            seq![(TokenSort::TokenString, decoded_or_empty(body))] + tokens_of(text, next)
        } else if is_alpha_byte(b) {
            let k = 1 + alpha_run(text, i + 1);
            if i + k <= text.len() {
                let w = chars_of(text.subrange(i, i + k));
                seq![(word_sort(w), w)] + tokens_of(text, i + k)
            } else {
                Seq::empty()
            }
        } else if is_digit_byte(b) {
            let k = 1 + digit_run(text, i + 1);
            if i + k <= text.len() {
                seq![(TokenSort::TokenNumber, chars_of(text.subrange(i, i + k)))] + tokens_of(text, i + k)
            } else {
                Seq::empty()
            }
        } else {
            tokens_of(text, i + 1)
        }
    }
}

/// A run of letters from `i` up to `e`, where one stops, is `alpha_run` long.
proof fn lemma_alpha_run(text: Seq<u8>, i: int, e: int)
    requires
        0 <= i <= e <= text.len(),
        forall|j: int| i <= j < e ==> is_alpha_byte(#[trigger] text[j]),
        e == text.len() || !is_alpha_byte(text[e]),
    ensures
        alpha_run(text, i) == e - i,
    decreases e - i,
{
    if i < e {
        lemma_alpha_run(text, i + 1, e);
    }
}

/// A run of digits from `i` up to `e`, where one stops, is `digit_run` long.
proof fn lemma_digit_run(text: Seq<u8>, i: int, e: int)
    requires
        0 <= i <= e <= text.len(),
        forall|j: int| i <= j < e ==> is_digit_byte(#[trigger] text[j]),
        e == text.len() || !is_digit_byte(text[e]),
    ensures
        digit_run(text, i) == e - i,
    decreases e - i,
{
    if i < e {
        lemma_digit_run(text, i + 1, e);
    }
}

/// A string body ends at or after where it starts, and within the text.
proof fn lemma_scan_end(text: Seq<u8>, i: int, quote: u8)
    requires
        0 <= i,
    ensures
        i <= scan_from(text, i, quote).1 || scan_from(text, i, quote).1 == text.len(),
        scan_from(text, i, quote).1 <= text.len(),
    decreases text.len() - i,
{
    if 0 <= i < text.len() && text[i] != quote && text[i] != 10 {
        if text[i] == 92 {
            if i + 1 < text.len() && text[i + 1] != 10 {
                lemma_scan_end(text, i + 2, quote);
            }
        } else {
            lemma_scan_end(text, i + 1, quote);
        }
    }
}

/// The last line of well-formed lines ends where the whole input ends.
proof fn lemma_flat_len(lines: Seq<Vec<u8>>)
    requires
        lines.len() > 0,
    ensures
        flat(lines.subrange(0, lines.len() - 1)).len() + lines.last()@.len() == flat(lines).len(),
{
    assert(lines.subrange(0, lines.len() - 1) =~= lines.drop_last());
}

/// From byte `j` of line `k` on, what is left of the line is `line_rest` long.
proof fn lemma_line_rest(lines: Seq<Vec<u8>>, k: int, j: int)
    requires
        lines_ok(lines),
        0 <= k < lines.len(),
        0 <= j <= lines[k]@.len(),
        j < lines[k]@.len() || k == lines.len() - 1,
    ensures
        line_rest(flat(lines), flat(lines.subrange(0, k)).len() + j) == lines[k]@.len() - j,
    decreases lines[k]@.len() - j,
{
    let base = flat(lines.subrange(0, k)).len();
    if j == lines[k]@.len() {
        lemma_flat_len(lines);
    } else {
        lemma_flat_index(lines, k, j);
        if j + 1 < lines[k]@.len() {
            lemma_line_rest(lines, k, j + 1);
        } else if flat(lines)[base + j] != 10 {
            lemma_line_rest(lines, k, j + 1);
        }
    }
}

/// A token is located in order, its text fits its kind, and a one-byte
/// token spans one column.
pub open spec fn token_ok(t: Token) -> bool {
    &&& t.loc.well_ordered()
    &&& token_text_fits(t)
    &&& (t.sort is TokenEq || t.sort is TokenPlus || t.sort is TokenQmark)
        ==> t.loc.end == (t.loc.start.0, (t.loc.start.1 + 1) as usize)
}

/// Tokens as their kinds and texts.
pub open spec fn token_views(ts: Seq<Token>) -> Seq<(TokenSort, Seq<char>)> {
    ts.map_values(|t: Token| (t.sort, t.content@))
}

/// The bytes `b` read as characters, one for each.
pub open spec fn chars_of(b: Seq<u8>) -> Seq<char> {
    b.map_values(|x: u8| x as char)
}

/// The diagnostics that reading and splitting the input records.
pub open spec fn lexer_diag(e: Error) -> bool {
    e is ErrorReadline || e is ErrorUnclosedString || e is WarningEscapeSeq || e is WarningEmptyString
}

/// Every diagnostic recorded since `before` is one that reading records.
pub open spec fn lexer_diags_only(after: ErrorHandler, before: ErrorHandler) -> bool {
    forall|k: int| before.errors@.len() <= k < after.errors@.len() ==> lexer_diag(#[trigger] after.errors@[k])
}

/// Total length of the lines from index `i` on.
pub open spec fn len_from(lines: Seq<Vec<u8>>, i: nat) -> nat
    decreases lines.len() - i,
{
    if i >= lines.len() {
        0
    } else {
        lines[i as int]@.len() + len_from(lines, i + 1)
    }
}

/// A line-buffered scanner over the lines of a script.
///
/// `lines` holds each line with its line break; `read_failed` says that reading
/// went wrong after the last of them. `line_nb` lines have been taken so far,
/// the current one being the last of these, and `cursor` is the next unread
/// byte in it; `c` is the byte last read.
pub struct Lexer {
    pub lines: Vec<Vec<u8>>,
    pub read_failed: bool,
    pub c: u8,
    pub cursor: usize,
    pub line_nb: usize,
    pub state: bool,
}

impl Lexer {
    pub open spec fn cur_len(&self) -> nat {
        if self.line_nb == 0 {
            0
        } else {
            self.lines@[self.line_nb - 1]@.len()
        }
    }

    pub open spec fn wf(&self) -> bool {
        &&& self.line_nb <= self.lines@.len()
        &&& self.lines@.len() < usize::MAX
        &&& forall|i: int| 0 <= i < self.lines@.len() ==> (#[trigger] self.lines@[i])@.len() < usize::MAX
        &&& self.cursor <= self.cur_len()
        &&& self.state ==> self.line_nb >= 1
        &&& self.state && self.cursor >= 1 ==> self.c == self.lines@[self.line_nb - 1]@[self.cursor - 1]
    }

    /// What is left to read; every step that reads makes it smaller.
    pub open spec fn rest(&self) -> nat {
        if self.state {
            1 + (self.cur_len() - self.cursor) as nat + len_from(self.lines@, self.line_nb as nat)
        } else {
            0
        }
    }

    /// How many bytes of the whole input have been read.
    pub open spec fn offset(&self) -> int {
        if self.line_nb == 0 {
            0
        } else {
            flat(self.lines@.subrange(0, self.line_nb - 1)).len() + self.cursor
        }
    }

    /// The whole input.
    pub open spec fn text(&self) -> Seq<u8> {
        flat(self.lines@)
    }

    /// The tokens still to come: from the lookahead on, or from the next byte
    /// where nothing was read from the current line yet.
    pub open spec fn remaining(&self) -> Seq<(TokenSort, Seq<char>)> {
        if !self.state {
            Seq::empty()
        } else if self.cursor >= 1 {
            tokens_of(self.text(), self.offset() - 1)
        } else {
            tokens_of(self.text(), self.offset())
        }
    }

    /// Nothing has been read yet.
    pub open spec fn at_start(&self) -> bool {
        &&& self.cursor == 0
        &&& self.c == 32
        &&& self.line_nb <= 1
        &&& self.state <==> self.lines@.len() > 0
    }

    /// The lookahead stands for nothing read: a space before anything was.
    pub open spec fn fresh_or_read(&self) -> bool {
        self.state ==> self.cursor >= 1 || (self.c == 32 && self.offset() == 0)
    }

    /// The lookahead is the byte just before the cursor in the whole input.
    proof fn lemma_lookahead(&self)
        requires
            self.wf(),
            self.state,
            self.cursor >= 1,
        ensures
            1 <= self.offset() <= self.text().len(),
            self.c == self.text()[self.offset() - 1],
    {
        lemma_flat_index(self.lines@, self.line_nb - 1, self.cursor - 1);
    }

    pub open spec fn pos(&self) -> (usize, usize) {
        (self.line_nb, self.cursor)
    }

    /// Moves on without changing the input.
    pub open spec fn moves_on(&self, before: &Lexer) -> bool {
        &&& self.wf()
        &&& self.lines@ == before.lines@
        &&& self.read_failed == before.read_failed
        &&& self.rest() <= before.rest()
        &&& pos_le(before.pos(), self.pos())
        &&& self.line_nb >= before.line_nb
        &&& (!before.state ==> self == before)
    }

    pub fn new(lines: Vec<Vec<u8>>, read_failed: bool, err: &mut ErrorHandler) -> (r: Self)
        requires
            lines@.len() < usize::MAX,
            forall|i: int| 0 <= i < lines@.len() ==> (#[trigger] lines@[i])@.len() < usize::MAX,
        ensures
            r.wf(),
            r.lines@ == lines@,
            r.read_failed == read_failed,
            r.state <==> lines@.len() > 0,
            r.state ==> r.line_nb == 1 && r.cursor == 0,
            r.at_start(),
            final(err).extends(*old(err)),
            lexer_diags_only(*final(err), *old(err)),
    {
        let first = lines.len() > 0;
        if !first && read_failed {
            err.push(Error::ErrorReadline(0));
        }
        Self {
            lines: lines,
            read_failed: read_failed,
            c: 32,
            cursor: 0,
            line_nb: if first { 1 } else { 0 },
            state: first,
        }
    }

    /// Takes the next line, or notes the end of the input.
    pub fn get_line(&mut self, err: &mut ErrorHandler)
        requires
            old(self).wf(),
        ensures
            final(self).moves_on(old(self)),
            final(self).c == old(self).c,
            final(err).extends(*old(err)),
            lexer_diags_only(*final(err), *old(err)),
            old(self).state && old(self).line_nb < old(self).lines@.len() ==> final(self).state
                && final(self).line_nb == old(self).line_nb + 1 && final(self).cursor == 0,
            old(self).line_nb >= old(self).lines@.len() ==> !final(self).state,
            old(self).state && old(self).line_nb >= old(self).lines@.len() ==> final(self).line_nb == old(self).line_nb
                && final(self).cursor == old(self).cursor
                && (old(self).read_failed ==> final(err).records(*old(err), Error::ErrorReadline(old(self).line_nb))
                    && final(err).trigger)
                && (!old(self).read_failed ==> *final(err) == *old(err)),
            old(self).state && old(self).line_nb < old(self).lines@.len() || !old(self).state ==> *final(err) == *old(err),
            forall|k: int| old(err).errors@.len() <= k < final(err).errors@.len() ==> (#[trigger] final(err).errors@[k]) is ErrorReadline,
    {
        if self.state {
            if self.line_nb < self.lines.len() {
                self.cursor = 0;
                self.line_nb = self.line_nb + 1;
            } else {
                if self.read_failed {
                    err.push(Error::ErrorReadline(self.line_nb));
                }
                self.state = false;
            }
        }
    }

    /// Reads the next byte into `c`, taking the next line where this one is done.
    pub fn advance(&mut self, err: &mut ErrorHandler)
        requires
            old(self).wf(),
        ensures
            final(self).moves_on(old(self)),
            old(self).state ==> final(self).rest() < old(self).rest(),
            !final(self).state ==> final(self).c == old(self).c,
            final(self).state ==> pos_le((old(self).line_nb, (old(self).cursor + 1) as usize), final(self).pos()),
            old(self).state && final(self).state ==> final(self).offset() == old(self).offset() + 1
                && final(self).cursor >= 1,
            old(self).state && !final(self).state ==> final(self).offset() == old(self).offset(),
            old(self).state && old(self).cursor < old(self).cur_len() ==> final(self).state,
            old(self).state && !final(self).state && lines_ok(old(self).lines@)
                ==> final(self).offset() == final(self).text().len(),
            final(err).extends(*old(err)),
            lexer_diags_only(*final(err), *old(err)),
            forall|k: int| old(err).errors@.len() <= k < final(err).errors@.len() ==> (#[trigger] final(err).errors@[k]) is ErrorReadline,
    {
        if self.cursor == self.line_len() {
            self.get_line(err);
            proof {
                if self.state && old(self).state && self.line_nb == old(self).line_nb + 1 {
                    let l = self.lines@;
                    assert(l.subrange(0, self.line_nb - 1).drop_last() =~= l.subrange(0, old(self).line_nb - 1));
                }
            }
        }
        proof {
            if old(self).state && !self.state && lines_ok(old(self).lines@) {
                let l = self.lines@;
                assert(l.subrange(0, l.len() - 1) =~= l.drop_last());
            }
        }
        if self.state {
            if self.cursor < self.line_len() {
                self.c = self.lines[self.line_nb - 1][self.cursor];
                self.cursor = self.cursor + 1;
            } else {
                err.push(Error::ErrorReadline(self.line_nb));
                self.state = false;
            }
        }
    }

    /// A one-byte token of kind `ts` made of the current byte.
    pub fn read_char(&mut self, ts: TokenSort, err: &mut ErrorHandler) -> (t: Token)
        requires
            old(self).wf(),
            old(self).line_nb >= 1,
            old(self).cursor < usize::MAX,
        ensures
            final(self).moves_on(old(self)),
            old(self).state ==> final(self).rest() < old(self).rest(),
            final(err).extends(*old(err)),
            lexer_diags_only(*final(err), *old(err)),
            t.sort == ts,
            t.loc.start == old(self).pos(),
            t.loc.end == (old(self).line_nb, (old(self).cursor + 1) as usize),
            t.loc.well_ordered(),
            t.content@ == seq![old(self).c as char],
            final(self).state ==> pos_le(t.loc.end, final(self).pos()),
            old(self).state && old(self).cursor >= 1 ==> t.content@ == chars_of(
                old(self).text().subrange(old(self).offset() - 1, old(self).offset()),
            ),
            old(self).state && final(self).state ==> final(self).offset() == old(self).offset() + 1
                && final(self).cursor >= 1,
            old(self).state && !final(self).state && lines_ok(old(self).lines@)
                ==> old(self).offset() == old(self).text().len(),
    {
        proof {
            if self.state && self.cursor >= 1 {
                self.lemma_lookahead();
                assert(chars_of(self.text().subrange(self.offset() - 1, self.offset())) =~= seq![self.c as char]);
            }
        }
        let mut content = String::new();
        push_char(&mut content, self.c as char);
        let res = Token {
            sort: ts,
            loc: Loc { start: (self.line_nb, self.cursor), end: (self.line_nb, self.cursor + 1) },
            content: content,
        };
        self.advance(err);
        res
    }

    pub fn is_alpha(&self) -> (r: bool)
        ensures
            r == is_alpha_byte(self.c),
    {
        (65 <= self.c && self.c <= 90) || (97 <= self.c && self.c <= 122)
    }

    pub fn is_digit(&self) -> (r: bool)
        ensures
            r == is_digit_byte(self.c),
    {
        48 <= self.c && self.c <= 57
    }

    /// A maximal run of letters: a reserved word or an identifier.
    pub fn read_id(&mut self, err: &mut ErrorHandler) -> (t: Token)
        requires
            old(self).wf(),
            old(self).state,
            is_alpha_byte(old(self).c),
        ensures
            final(self).moves_on(old(self)),
            final(self).rest() < old(self).rest(),
            final(err).extends(*old(err)),
            lexer_diags_only(*final(err), *old(err)),
            t.loc.start == old(self).pos(),
            t.loc.end == final(self).pos(),
            t.loc.well_ordered(),
            token_text_fits(t),
            t.sort != TokenSort::TokenString && t.sort != TokenSort::TokenNumber,
            !(t.sort is TokenEq || t.sort is TokenPlus || t.sort is TokenQmark),
            !final(self).state || !is_alpha_byte(final(self).c),
            old(self).cursor >= 1 ==> t.content@ == chars_of(old(self).text().subrange(
                old(self).offset() - 1,
                if final(self).state { final(self).offset() - 1 } else { final(self).offset() },
            )),
            old(self).cursor >= 1 && lines_ok(old(self).lines@) ==> {
                let k = 1 + alpha_run(old(self).text(), old(self).offset());
                &&& final(self).state ==> final(self).offset() - 1 == old(self).offset() - 1 + k && final(self).cursor >= 1
                &&& !final(self).state ==> old(self).offset() - 1 + k == old(self).text().len()
                    && final(self).offset() == old(self).text().len()
            },
    {
        let start = (self.line_nb, self.cursor);
        let mut content = String::new();
        let mut word: Vec<char> = Vec::new();
        proof {
            if old(self).cursor >= 1 {
                self.lemma_lookahead();
            }
        }
        while self.is_alpha() && self.state
            invariant
                self.moves_on(old(self)),
                word@.len() == 0 ==> self.state && is_alpha_byte(self.c),
                word@.len() > 0 ==> self.rest() < old(self).rest(),
                err.extends(*old(err)),
                lexer_diags_only(*err, *old(err)),
                content@ == word@,
                forall|i: int| 0 <= i < word@.len() ==> is_alpha_char(#[trigger] word@[i]),
                old(self).cursor >= 1 && self.state ==> self.cursor >= 1,
                old(self).cursor >= 1 ==> 1 <= old(self).offset() <= self.offset() <= self.text().len(),
                old(self).cursor >= 1 ==> word@ == chars_of(old(self).text().subrange(
                    old(self).offset() - 1,
                    if self.state { self.offset() - 1 } else { self.offset() },
                )),
                old(self).cursor >= 1 ==> forall|j: int| old(self).offset() - 1 <= j < (if self.state { self.offset() - 1 } else { self.offset() })
                    ==> is_alpha_byte(#[trigger] self.text()[j]),
                old(self).cursor >= 1 && lines_ok(old(self).lines@) && !self.state ==> self.offset() == self.text().len(),
            decreases self.rest(),
        {
            proof {
                if old(self).cursor >= 1 {
                    self.lemma_lookahead();
                    let t = self.text();
                    let (a, b) = (old(self).offset() - 1, self.offset() - 1);
                    assert(chars_of(t.subrange(a, b)).push(t[b] as char) =~= chars_of(t.subrange(a, b + 1)));
                }
            }
            push_char(&mut content, self.c as char);
            word.push(self.c as char);
            self.advance(err);
            proof {
                if old(self).cursor >= 1 && self.state {
                    self.lemma_lookahead();
                }
            }
        }
        proof {
            if old(self).cursor >= 1 && lines_ok(old(self).lines@) {
                let e = if self.state { self.offset() - 1 } else { self.offset() };
                if self.state {
                    self.lemma_lookahead();
                }
                lemma_alpha_run(self.text(), old(self).offset(), e);
            }
        }
        let ts = sort_of_word(&word);
        Token { sort: ts, loc: Loc { start: start, end: (self.line_nb, self.cursor) }, content: content }
    }

    /// A maximal run of decimal digits.
    pub fn read_number(&mut self, err: &mut ErrorHandler) -> (t: Token)
        requires
            old(self).wf(),
            old(self).state,
            is_digit_byte(old(self).c),
        ensures
            final(self).moves_on(old(self)),
            final(self).rest() < old(self).rest(),
            final(err).extends(*old(err)),
            lexer_diags_only(*final(err), *old(err)),
            t.sort == TokenSort::TokenNumber,
            t.loc.start == old(self).pos(),
            t.loc.end == final(self).pos(),
            t.loc.well_ordered(),
            token_text_fits(t),
            !final(self).state || !is_digit_byte(final(self).c),
            old(self).cursor >= 1 ==> t.content@ == chars_of(old(self).text().subrange(
                old(self).offset() - 1,
                if final(self).state { final(self).offset() - 1 } else { final(self).offset() },
            )),
            old(self).cursor >= 1 && lines_ok(old(self).lines@) ==> {
                let k = 1 + digit_run(old(self).text(), old(self).offset());
                &&& final(self).state ==> final(self).offset() - 1 == old(self).offset() - 1 + k && final(self).cursor >= 1
                &&& !final(self).state ==> old(self).offset() - 1 + k == old(self).text().len()
                    && final(self).offset() == old(self).text().len()
            },
    {
        let start = (self.line_nb, self.cursor);
        let mut content = String::new();
        proof {
            if old(self).cursor >= 1 {
                self.lemma_lookahead();
            }
        }
        while self.is_digit() && self.state
            invariant
                self.moves_on(old(self)),
                content@.len() == 0 ==> self.state && is_digit_byte(self.c),
                content@.len() > 0 ==> self.rest() < old(self).rest(),
                err.extends(*old(err)),
                lexer_diags_only(*err, *old(err)),
                forall|i: int| 0 <= i < content@.len() ==> is_digit_char(#[trigger] content@[i]),
                old(self).cursor >= 1 && self.state ==> self.cursor >= 1,
                old(self).cursor >= 1 ==> 1 <= old(self).offset() <= self.offset() <= self.text().len(),
                old(self).cursor >= 1 ==> content@ == chars_of(old(self).text().subrange(
                    old(self).offset() - 1,
                    if self.state { self.offset() - 1 } else { self.offset() },
                )),
                old(self).cursor >= 1 ==> forall|j: int| old(self).offset() - 1 <= j < (if self.state { self.offset() - 1 } else { self.offset() })
                    ==> is_digit_byte(#[trigger] self.text()[j]),
                old(self).cursor >= 1 && lines_ok(old(self).lines@) && !self.state ==> self.offset() == self.text().len(),
            decreases self.rest(),
        {
            proof {
                if old(self).cursor >= 1 {
                    self.lemma_lookahead();
                    let t = self.text();
                    let (a, b) = (old(self).offset() - 1, self.offset() - 1);
                    assert(chars_of(t.subrange(a, b)).push(t[b] as char) =~= chars_of(t.subrange(a, b + 1)));
                }
            }
            push_char(&mut content, self.c as char);
            self.advance(err);
            proof {
                if old(self).cursor >= 1 && self.state {
                    self.lemma_lookahead();
                }
            }
        }
        proof {
            if old(self).cursor >= 1 && lines_ok(old(self).lines@) {
                let e = if self.state { self.offset() - 1 } else { self.offset() };
                if self.state {
                    self.lemma_lookahead();
                }
                lemma_digit_run(self.text(), old(self).offset(), e);
            }
        }
        Token {
            sort: TokenSort::TokenNumber,
            loc: Loc { start: start, end: (self.line_nb, self.cursor) },
            content: content,
        }
    }

    /// Skips spaces and tabs.
    pub fn skip_space(&mut self, err: &mut ErrorHandler)
        requires
            old(self).wf(),
        ensures
            final(self).moves_on(old(self)),
            final(err).extends(*old(err)),
            lexer_diags_only(*final(err), *old(err)),
            !final(self).state || (final(self).c != 32 && final(self).c != 9),
            old(self).state ==> final(self).state || final(self).c == 32 || final(self).c == 9,
            lines_ok(old(self).lines@) && old(self).fresh_or_read() ==> final(self).remaining() == old(self).remaining()
                && (final(self).state ==> final(self).cursor >= 1),
    {
        while (self.c == 32 || self.c == 9) && self.state
            invariant
                self.moves_on(old(self)),
                old(self).state ==> self.state || self.c == 32 || self.c == 9,
                lines_ok(old(self).lines@) && old(self).fresh_or_read() ==> self.fresh_or_read()
                    && self.remaining() == old(self).remaining()
                    && (self.state && !(self.c == 32 || self.c == 9) ==> self.cursor >= 1),
                err.extends(*old(err)),
                lexer_diags_only(*err, *old(err)),
            decreases self.rest(),
        {
            let ghost before = *self;
            proof {
                if lines_ok(self.lines@) && self.cursor >= 1 {
                    self.lemma_lookahead();
                    assert(tokens_of(self.text(), self.offset() - 1) == tokens_of(self.text(), self.offset()));
                }
            }
            self.advance(err);
            proof {
                if lines_ok(self.lines@) && old(self).fresh_or_read() {
                    if !self.state {
                        assert(tokens_of(self.text(), before.offset()) == Seq::<(TokenSort, Seq<char>)>::empty());
                    }
                    assert(self.remaining() == before.remaining());
                }
            }
        }
    }

    /// Drops the rest of the current line, then reads the first byte of the next.
    pub fn skip_line(&mut self, err: &mut ErrorHandler)
        requires
            old(self).wf(),
        ensures
            final(self).moves_on(old(self)),
            final(self).state ==> final(self).rest() < old(self).rest(),
            final(err).extends(*old(err)),
            lexer_diags_only(*final(err), *old(err)),
            lines_ok(old(self).lines@) && old(self).state && old(self).cursor >= 1 && old(self).c == 35
                ==> final(self).remaining() == old(self).remaining() && (final(self).state ==> final(self).cursor >= 1),
    {
        proof {
            if lines_ok(old(self).lines@) && old(self).state && old(self).cursor >= 1 && old(self).c == 35 {
                let l = self.lines@;
                let k = self.line_nb - 1;
                if self.cursor == l[k]@.len() && k < l.len() - 1 {
                    assert(l[k]@.last() == 10u8);
                }
                self.lemma_lookahead();
                lemma_line_rest(l, k, self.cursor as int);
                lemma_flat_len(l);
                assert(l.subrange(0, k + 1).drop_last() =~= l.subrange(0, k));
                let text = self.text();
                let cur = self.offset() - 1;
                let n: int = (flat(l.subrange(0, k)).len() + l[k]@.len()) as int;
                assert(text[cur] == 35);
                assert(cur + 1 + line_rest(text, cur + 1) == n);
                lemma_flat_index(l, k, l[k]@.len() - 1);
                assert(n <= text.len());
                assert(self.remaining() == tokens_of(text, n));
            }
        }
        let ghost n: int = (flat(self.lines@.subrange(0, self.line_nb - 1)).len() + self.cur_len()) as int;
        self.get_line(err);
        self.advance(err);
        proof {
            if lines_ok(old(self).lines@) && old(self).state && old(self).cursor >= 1 && old(self).c == 35 {
                if self.state {
                    assert(self.offset() - 1 == n);
                } else {
                    assert(n == self.text().len());
                }
            }
        }
    }

    /// A string literal between two equal quotes, with its escapes translated.
    #[verifier::rlimit(100)]
    pub fn read_string(&mut self, err: &mut ErrorHandler) -> (t: Token)
        requires
            old(self).wf(),
            old(self).state,
        ensures
            final(self).moves_on(old(self)),
            final(self).rest() < old(self).rest(),
            final(err).extends(*old(err)),
            lexer_diags_only(*final(err), *old(err)),
            t.sort == TokenSort::TokenString,
            t.loc.start == old(self).pos(),
            t.loc.end == final(self).pos(),
            t.loc.well_ordered(),
            t.content@.len() == 0 ==> final(err).errors@.len() > old(err).errors@.len()
                && final(err).errors@.last() == Error::WarningEmptyString(old(self).pos()),
            t.content@.len() > 0 ==> forall|k: int| old(err).errors@.len() <= k < final(err).errors@.len()
                ==> !((#[trigger] final(err).errors@[k]) is WarningEmptyString),
            lines_ok(old(self).lines@) && old(self).cursor >= 1 ==> {
                let (body, e) = scan_from(old(self).text(), old(self).offset(), old(self).c);
                let closed = closed_at(old(self).text(), e, old(self).c);
                &&& t.content@ == if valid_utf8(body) { decode_utf8(body) } else { Seq::empty() }
                &&& final(self).state ==> e < old(self).text().len() && final(self).cursor >= 1
                    && final(self).offset() - 1 == (if closed { e + 1 } else { e })
                &&& !final(self).state ==> (if closed { e + 1 } else { e }) >= old(self).text().len()
                &&& !closed <==> exists|k: int| old(err).errors@.len() <= k < final(err).errors@.len()
                    && final(err).errors@[k] == Error::ErrorUnclosedString(old(self).pos())
                &&& count_escape_warnings(final(err).errors@, old(err).errors@.len() as int)
                    == escape_warnings(old(self).text(), old(self).offset(), old(self).c)
            },
    {
        let start = (self.line_nb, self.cursor);
        let quote = self.c;
        let ghost text = self.text();
        let ghost s = self.offset();
        let ghost exact = lines_ok(self.lines@) && self.cursor >= 1;
        proof {
            if exact {
                self.lemma_lookahead();
            }
        }
        let ghost e0 = err.errors@;
        self.advance(err);
        proof {
            lemma_count_other(err.errors@, e0, e0.len() as int);
            if exact && self.state {
                self.lemma_lookahead();
            }
        }
        let mut buffer: Vec<u8> = Vec::new();
        while self.c != quote && self.c != 10 && self.state
            invariant
                self.moves_on(old(self)),
                self.rest() < old(self).rest(),
                err.extends(*old(err)),
                lexer_diags_only(*err, *old(err)),
                text == self.text(),
                exact ==> lines_ok(self.lines@),
                exact && self.state ==> self.cursor >= 1 && s <= self.offset() - 1
                    && buffer@ + scan_from(text, self.offset() - 1, quote).0 == scan_from(text, s, quote).0,
                exact && !self.state ==> buffer@ == scan_from(text, s, quote).0
                    && scan_from(text, s, quote).1 == text.len(),
                exact && self.state ==> scan_from(text, self.offset() - 1, quote).1 == scan_from(text, s, quote).1,
                forall|k: int| old(err).errors@.len() <= k < err.errors@.len() ==> !((#[trigger] err.errors@[k]) is ErrorUnclosedString),
                forall|k: int| old(err).errors@.len() <= k < err.errors@.len() ==> !((#[trigger] err.errors@[k]) is WarningEmptyString),
                exact && self.state ==> count_escape_warnings(err.errors@, old(err).errors@.len() as int)
                    + escape_warnings(text, self.offset() - 1, quote) == escape_warnings(text, s, quote),
                exact && !self.state ==> count_escape_warnings(err.errors@, old(err).errors@.len() as int)
                    == escape_warnings(text, s, quote),
            decreases self.rest(),
        {
            let ghost cur = self.offset() - 1;
            let ghost b0 = buffer@;
            proof {
                if exact {
                    self.lemma_lookahead();
                }
            }
            if self.c == 92 {
                proof {
                    if exact && self.cursor < self.cur_len() {
                        lemma_flat_index(self.lines@, self.line_nb - 1, self.cursor as int);
                    }
                }
                if self.cursor == self.line_len() || self.lines[self.line_nb - 1][self.cursor] == 10 {
                    proof {
                        if exact {
                            let l = self.lines@;
                            if self.cursor == self.cur_len() {
                                if self.line_nb < l.len() {
                                    assert(l[self.line_nb - 1]@.last() == 10u8);
                                }
                                assert(l.subrange(0, l.len() - 1) =~= l.drop_last());
                            }
                            assert(scan_from(text, cur, quote) == (Seq::<u8>::empty(), cur + 1));
                        }
                    }
                    let ghost e1 = err.errors@;
                    err.push_warning(Error::WarningEscapeSeq((self.line_nb, self.cursor)));
                    proof {
                        lemma_count_push(e1, Error::WarningEscapeSeq((self.line_nb, self.cursor)), old(err).errors@.len() as int);
                        if exact {
                            assert(escape_warnings(text, cur, quote) == 1);
                        }
                    }
                } else {
                    proof {
                        if exact {
                            lemma_flat_index(self.lines@, self.line_nb - 1, self.cursor as int);
                        }
                    }
                    let ghost e1 = err.errors@;
                    self.advance(err);
                    proof {
                        lemma_count_other(err.errors@, e1, old(err).errors@.len() as int);
                        if exact {
                            self.lemma_lookahead();
                        }
                    }
                    let ghost x = self.c;
                    let ghost e2 = err.errors@;
                    if self.c == 110 {
                        buffer.push(10);
                    } else if self.c == 116 {
                        buffer.push(9);
                    } else if self.c == 34 {
                        buffer.push(34);
                    } else if self.c == 92 {
                        buffer.push(92);
                    } else {
                        err.push_warning(Error::WarningEscapeSeq((self.line_nb, self.cursor)));
                        proof {
                            lemma_count_push(e2, Error::WarningEscapeSeq((self.line_nb, self.cursor)), old(err).errors@.len() as int);
                        }
                        buffer.push(self.c);
                    }
                    proof {
                        if exact {
                            assert(escape_warnings(text, cur, quote) == (if x == 110 || x == 116 || x == 34 || x == 92 { 0nat } else { 1nat })
                                + escape_warnings(text, cur + 2, quote));
                            assert(buffer@ == b0.push(escaped(x)));
                            assert(scan_from(text, cur, quote).0 == seq![escaped(text[cur + 1])] + scan_from(text, cur + 2, quote).0);
                            assert(scan_from(text, cur, quote).1 == scan_from(text, cur + 2, quote).1);
                        }
                    }
                }
            } else {
                buffer.push(self.c);
                proof {
                    if exact {
                        assert(scan_from(text, cur, quote).0 == seq![text[cur]] + scan_from(text, cur + 1, quote).0);
                        assert(scan_from(text, cur, quote).1 == scan_from(text, cur + 1, quote).1);
                        assert(escape_warnings(text, cur, quote) == escape_warnings(text, cur + 1, quote));
                    }
                }
            }
            let ghost mid = buffer@;
            let ghost nxt = self.offset();
            let ghost e3 = err.errors@;
            self.advance(err);
            proof {
                lemma_count_other(err.errors@, e3, old(err).errors@.len() as int);
                if exact {
                    if self.state && text[nxt] == 10 {
                        assert(escape_warnings(text, nxt, quote) == 0);
                    }
                    if !self.state {
                        assert(escape_warnings(text, nxt, quote) == 0);
                    }
                    assert(b0 + scan_from(text, cur, quote).0 == scan_from(text, s, quote).0);
                    if self.state {
                        self.lemma_lookahead();
                        assert(self.offset() - 1 == nxt);
                        if text[nxt] == 10 {
                            assert(scan_from(text, nxt, quote) == (Seq::<u8>::empty(), nxt));
                        }
                    } else {
                        assert(nxt == text.len());
                        assert(scan_from(text, nxt, quote) == (Seq::<u8>::empty(), text.len() as int));
                    }
                    assert(mid + scan_from(text, nxt, quote).0 =~= b0 + scan_from(text, cur, quote).0);
                }
            }
        }
        proof {
            if exact && self.state {
                self.lemma_lookahead();
                assert(scan_from(text, self.offset() - 1, quote) == (Seq::<u8>::empty(), self.offset() - 1));
                assert(buffer@ =~= buffer@ + scan_from(text, self.offset() - 1, quote).0);
            }
        }
        proof {
            if exact && self.state {
                assert(escape_warnings(text, self.offset() - 1, quote) == 0);
            }
        }
        let ghost close = self.offset();
        let ghost e_end = err.errors@;
        let ghost n0 = err.errors@.len();
        let ghost unclosed = !self.state || self.c != quote;
        if !self.state || self.c != quote {
            err.push(Error::ErrorUnclosedString(start));
            proof {
                assert(err.errors@[n0 as int] == Error::ErrorUnclosedString(start));
                lemma_count_push(e_end, Error::ErrorUnclosedString(start), old(err).errors@.len() as int);
            }
        } else {
            self.advance(err);
            proof {
                lemma_count_other(err.errors@, e_end, old(err).errors@.len() as int);
                if exact && !self.state {
                    assert(close == text.len());
                }
            }
        }
        let content = match string_from_utf8(buffer) {
            Some(r) => r,
            None => String::new(),
        };
        let ghost mid_err = *err;
        if content.as_str().is_empty() {
            err.push_warning(Error::WarningEmptyString(start));
            proof {
                lemma_count_push(mid_err.errors@, Error::WarningEmptyString(start), old(err).errors@.len() as int);
            }
        }
        proof {
            assert forall|k: int| old(err).errors@.len() <= k < err.errors@.len() && !(unclosed && k == n0)
                implies !(#[trigger] err.errors@[k] is ErrorUnclosedString) by {
                if k < mid_err.errors@.len() {
                    assert(err.errors@[k] == mid_err.errors@[k]);
                }
            }
            if unclosed {
                assert(err.errors@[n0 as int] == mid_err.errors@[n0 as int]);
            }
            assert forall|k: int| old(err).errors@.len() <= k < mid_err.errors@.len()
                implies !(#[trigger] mid_err.errors@[k] is WarningEmptyString) by {
                if k >= n0 {
                    assert(!unclosed ==> mid_err.errors@[k] is ErrorReadline);
                }
            }
        }
        Token {
            sort: TokenSort::TokenString,
            loc: Loc { start: start, end: (self.line_nb, self.cursor) },
            content: content,
        }
    }

    /// Skips blanks, then reads one token, or skips a comment or a byte that
    /// starts none.
    #[verifier::rlimit(60)]
    fn next_token(&mut self, err: &mut ErrorHandler) -> (r: Option<Token>)
        requires
            old(self).wf(),
            old(self).state,
        ensures
            final(self).wf(),
            final(self).lines@ == old(self).lines@,
            final(self).rest() < old(self).rest(),
            pos_le(old(self).pos(), final(self).pos()),
            final(err).extends(*old(err)),
            lexer_diags_only(*final(err), *old(err)),
            r matches Some(t) ==> token_ok(t) && pos_le(old(self).pos(), t.loc.start)
                && (final(self).state ==> pos_le(t.loc.end, final(self).pos())),
            lines_ok(old(self).lines@) && old(self).fresh_or_read() ==> final(self).fresh_or_read()
                && old(self).remaining() == (match r {
                    Some(t) => seq![(t.sort, t.content@)],
                    None => Seq::<(TokenSort, Seq<char>)>::empty(),
                }) + final(self).remaining(),
    {
        let ghost exact = lines_ok(self.lines@) && self.fresh_or_read();
        let ghost top = self.rest();
        let mut r: Option<Token> = None;
        self.skip_space(err);
        let ghost mid = *self;
        let ghost cur = self.offset() - 1;
        proof {
            if exact && self.state {
                self.lemma_lookahead();
            }
        }
        let ghost text = self.text();
        if self.c == 35 {
            self.skip_line(err);
        } else if self.c == 61 || self.c == 43 || self.c == 63 {
            let ts = if self.c == 61 {
                TokenSort::TokenEq
            } else if self.c == 43 {
                TokenSort::TokenPlus
            } else {
                TokenSort::TokenQmark
            };
            let t = self.read_char(ts, err);
            proof {
                if exact && mid.state {
                    assert(t.content@ == seq![text[cur] as char]);
                    assert(mid.remaining() == seq![(t.sort, t.content@)] + tokens_of(text, cur + 1));
                    assert(self.remaining() == tokens_of(text, cur + 1));
                }
            }
            r = Some(t);
        } else if self.c == 34 || self.c == 39 {
            proof {
                if exact && self.state {
                    lemma_scan_end(self.text(), self.offset(), self.c);
                }
            }
            let t = self.read_string(err);
            proof {
                if exact && mid.state {
                    let (body, e) = scan_from(text, cur + 1, text[cur]);
                    let next = if cur < e && closed_at(text, e, text[cur]) {
                        e + 1
                    } else if cur < e <= text.len() {
                        e
                    } else {
                        text.len() as int
                    };
                    assert(mid.remaining() == seq![(t.sort, t.content@)] + tokens_of(text, next));
                    assert(self.remaining() == tokens_of(text, next));
                }
            }
            r = Some(t);
        } else if self.is_alpha() {
            let t = self.read_id(err);
            proof {
                if exact && mid.state {
                    let k = 1 + alpha_run(text, cur + 1);
                    if self.state {
                        self.lemma_lookahead();
                    }
                    assert(cur + k <= text.len());
                    assert(t.content@ =~= chars_of(text.subrange(cur, cur + k)));
                    assert(mid.remaining() == seq![(t.sort, t.content@)] + tokens_of(text, cur + k));
                    assert(self.remaining() == tokens_of(text, cur + k));
                }
            }
            r = Some(t);
        } else if self.is_digit() {
            let t = self.read_number(err);
            proof {
                if exact && mid.state {
                    let k = 1 + digit_run(text, cur + 1);
                    if self.state {
                        self.lemma_lookahead();
                    }
                    assert(cur + k <= text.len());
                    assert(t.content@ =~= chars_of(text.subrange(cur, cur + k)));
                    assert(mid.remaining() == seq![(t.sort, t.content@)] + tokens_of(text, cur + k));
                    assert(self.remaining() == tokens_of(text, cur + k));
                }
            }
            r = Some(t);
        } else {
            self.advance(err);
            proof {
                if exact && mid.state {
                    assert(mid.remaining() == tokens_of(text, cur + 1));
                    assert(self.remaining() == tokens_of(text, cur + 1));
                }
            }
        }
        proof {
            if exact && mid.state && !self.state {
                assert(self.remaining() =~= Seq::<(TokenSort, Seq<char>)>::empty());
            }
        }
        assert(self.rest() < top);
        r
    }

    /// Splits the whole input into tokens; an input without any is reported.
    pub fn get_tokens(&mut self, err: &mut ErrorHandler) -> (r: Vec<Token>)
        requires
            old(self).wf(),
        ensures
            final(self).wf(),
            !final(self).state,
            final(err).extends(*old(err)),
            forall|i: int| 0 <= i < r@.len() ==> token_ok(#[trigger] r@[i]),
            forall|i: int, j: int| 0 <= i < j < r@.len() ==> pos_le((#[trigger] r@[i]).loc.end, (#[trigger] r@[j]).loc.start),
            r@.len() == 0 ==> final(err).errors@.len() > 0 && final(err).errors@.last() == Error::ErrorEmptyFile,
            r@.len() == 0 ==> final(err).trigger,
            r@.len() > 0 ==> lexer_diags_only(*final(err), *old(err)),
            forall|k: int| old(err).errors@.len() <= k < final(err).errors@.len() ==> lexer_diag(#[trigger] final(err).errors@[k])
                || (r@.len() == 0 && k == final(err).errors@.len() - 1 && final(err).errors@[k] == Error::ErrorEmptyFile),
            lines_ok(old(self).lines@) && old(self).at_start() ==> token_views(r@) == tokens_of(old(self).text(), 0),
    {
        let mut res: Vec<Token> = Vec::new();
        let ghost exact = lines_ok(self.lines@) && self.at_start();
        proof {
            if exact {
                assert(token_views(res@) =~= Seq::<(TokenSort, Seq<char>)>::empty());
                if !self.state {
                    assert(self.lines@ =~= Seq::<Vec<u8>>::empty());
                }
                if self.line_nb == 1 {
                    assert(self.lines@.subrange(0, 0) =~= Seq::<Vec<u8>>::empty());
                }
            }
        }
        while self.state
            invariant
                self.wf(),
                self.lines@ == old(self).lines@,
                err.extends(*old(err)),
                lexer_diags_only(*err, *old(err)),
                forall|i: int| 0 <= i < res@.len() ==> token_ok(#[trigger] res@[i]),
                forall|i: int, j: int| 0 <= i < j < res@.len() ==> pos_le((#[trigger] res@[i]).loc.end, (#[trigger] res@[j]).loc.start),
                self.state && res@.len() > 0 ==> pos_le(res@.last().loc.end, self.pos()),
                exact == (lines_ok(old(self).lines@) && old(self).at_start()),
                exact ==> self.fresh_or_read() && token_views(res@) + self.remaining() == tokens_of(old(self).text(), 0),
            decreases self.rest(),
        {
            let ghost v0 = token_views(res@);
            let ghost before = *self;
            match self.next_token(err) {
                Some(t) => {
                    res.push(t);
                    proof {
                        assert(token_views(res@) =~= v0.push((t.sort, t.content@)));
                    }
                },
                None => {},
            }
            proof {
                if exact {
                    assert(token_views(res@) + self.remaining() =~= v0 + before.remaining());
                }
            }
        }
        if res.len() == 0 {
            err.push(Error::ErrorEmptyFile);
        }
        res
    }

    fn line_len(&self) -> (r: usize)
        requires
            self.wf(),
        ensures
            r == self.cur_len(),
    {
        if self.line_nb == 0 {
            0
        } else {
            self.lines[self.line_nb - 1].len()
        }
    }
}

} // verus!
