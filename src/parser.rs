use vstd::prelude::*;
use vstd::string::StringExecFns;
use crate::error::{Error, ErrorHandler};
use crate::lexer::{Token, TokenSort};
use crate::vm::{Inst, InstView, req_kind, req_parts};

verus! {

/// The diagnostics that parsing records, all of them fatal.
pub open spec fn parser_diag(e: Error) -> bool {
    e is ErrorExpectedToken || e is ErrorUnxepectedToken || e is ErrorNullVar || e is ErrorNoParse
}

/// Every diagnostic recorded since `before` is one that parsing records, so
/// the trigger is set once any is; where none is, the sink is as it was.
pub open spec fn only_fatal(after: ErrorHandler, before: ErrorHandler) -> bool {
    &&& after.extends(before)
    &&& before.trigger ==> after.trigger
    &&& after.errors@.len() > before.errors@.len() ==> after.trigger
    &&& after.errors@.len() == before.errors@.len() ==> after == before
    &&& forall|k: int| before.errors@.len() <= k < after.errors@.len() ==> parser_diag(#[trigger] after.errors@[k])
}

/// `n` is one of the names in `vars`.
pub open spec fn declared_in(vars: Seq<String>, n: Seq<char>) -> bool {
    exists|i: int| 0 <= i < vars.len() && (#[trigger] vars[i])@ == n
}

/// The status expected of a request that names none.
fn default_status() -> (r: String)
    ensures
        r@ == seq!['2', '0', '0'],
{
    let s = "200";
    proof {
        reveal_strlit("200");
    }
    s.to_owned()
}

/// The instruction a token contributes as an operand: a string is pushed, a
/// declared name is read.
pub open spec fn operand_code(t: Token, decl: Set<Seq<char>>) -> Option<InstView> {
    if t.sort == TokenSort::TokenString {
        Some(InstView::Push(t.content@))
    } else if t.sort == TokenSort::TokenId && decl.contains(t.content@) {
        Some(InstView::Gain(t.content@))
    } else {
        None
    }
}

/// The code of a well-formed value that starts at token `i`, and the index
/// of the token after it: the operands in order, then one join for each `+`,
/// the innermost first.
pub open spec fn value_code(toks: Seq<Token>, i: int, decl: Set<Seq<char>>) -> Option<(Seq<InstView>, int)>
    decreases toks.len() - i,
{
    if i < 0 || i >= toks.len() {
        None
    } else {
        match operand_code(toks[i], decl) {
            None => None,
            Some(h) => match plus_code(toks, i + 1, decl) {
                Some((c, j)) => Some((seq![h] + c, j)),
                None => None,
            },
        }
    }
}

/// The code of what may follow an operand at token `i`: nothing where no `+`
/// stands there, else the value after the `+` and the join.
pub open spec fn plus_code(toks: Seq<Token>, i: int, decl: Set<Seq<char>>) -> Option<(Seq<InstView>, int)>
    decreases toks.len() - i, 0nat,
{
    if i < 0 || i >= toks.len() || toks[i].sort != TokenSort::TokenPlus {
        Some((Seq::empty(), i))
    } else if i + 1 >= toks.len() {
        None
    } else {
        match value_code(toks, i + 1, decl) {
            Some((c, j)) => Some((c.push(InstView::Plus), j)),
            None => None,
        }
    }
}

/// The code of an optional `body value` at token `i`: the value's code,
/// whether there is a body, and the index after it.
pub open spec fn body_code(toks: Seq<Token>, i: int, decl: Set<Seq<char>>) -> Option<(Seq<InstView>, bool, int)> {
    if 0 <= i < toks.len() && toks[i].sort == TokenSort::TokenBody {
        match value_code(toks, i + 1, decl) {
            Some((c, j)) => Some((c, true, j)),
            None => None,
        }
    } else {
        Some((Seq::empty(), false, i))
    }
}

/// The expected status at token `i`: a number there, else `200`; and the
/// index after it.
pub open spec fn status_code(toks: Seq<Token>, i: int) -> (InstView, int) {
    if 0 <= i < toks.len() && toks[i].sort == TokenSort::TokenNumber {
        (InstView::Push(toks[i].content@), i + 1)
    } else {
        (InstView::Push(seq!['2', '0', '0']), i)
    }
}

/// The code of the trailing form of a request at token `i`: a capture into a
/// name, a comparison with a value, or neither.
pub open spec fn tail_code(
    toks: Seq<Token>,
    i: int,
    decl: Set<Seq<char>>,
    method: Seq<char>,
    body: bool,
) -> Option<(Seq<InstView>, int, Set<Seq<char>>)> {
    if 0 <= i < toks.len() && toks[i].sort == TokenSort::TokenEq {
        if i + 1 < toks.len() && toks[i + 1].sort == TokenSort::TokenId {
            let name = toks[i + 1].content@;
            Some((seq![InstView::ReqandPush(method, body), InstView::Load(name)], i + 2, decl.insert(name)))
        } else {
            None
        }
    } else if 0 <= i < toks.len() && toks[i].sort == TokenSort::TokenQmark {
        match value_code(toks, i + 1, decl) {
            Some((c, j)) => Some((c.push(InstView::ReqandCompare(method, body)), j, decl)),
            None => None,
        }
    } else {
        Some((seq![InstView::Req(method, body)], i, decl))
    }
}

/// The code of a well-formed request whose method stands at token `i`: the
/// url, the body, the expected status and the trailing form; with the index
/// after it and the names declared once it is done.
pub open spec fn req_code(toks: Seq<Token>, i: int, decl: Set<Seq<char>>, method: Seq<char>) -> Option<(Seq<InstView>, int, Set<Seq<char>>)> {
    match value_code(toks, i + 1, decl) {
        None => None,
        Some((u, j1)) => match body_code(toks, j1, decl) {
            None => None,
            Some((b, hb, j2)) => {
                let (st, j3) = status_code(toks, j2);
                match tail_code(toks, j3, decl, method, hb) {
                    None => None,
                    Some((t, j4, d)) => Some((u + b + seq![st] + t, j4, d)),
                }
            },
        },
    }
}

/// The method a request keyword stands for.
pub open spec fn method_name(s: TokenSort) -> Seq<char> {
    match s {
        TokenSort::TokenGet => seq!['G', 'E', 'T'],
        TokenSort::TokenPost => seq!['P', 'O', 'S', 'T'],
        TokenSort::TokenPut => seq!['P', 'U', 'T'],
        _ => seq!['D', 'E', 'L', 'E', 'T', 'E'],
    }
}

/// The code of the well-formed statement at token `i`, the index after it,
/// and the names declared once it is done.
pub open spec fn statement_code(toks: Seq<Token>, i: int, decl: Set<Seq<char>>) -> Option<(Seq<InstView>, int, Set<Seq<char>>)> {
    if i < 0 || i >= toks.len() {
        None
    } else {
        let t = toks[i];
        match t.sort {
            TokenSort::TokenId => if i + 1 < toks.len() && toks[i + 1].sort == TokenSort::TokenEq {
                match value_code(toks, i + 2, decl) {
                    Some((c, j)) => Some((c.push(InstView::Load(t.content@)), j, decl.insert(t.content@))),
                    None => None,
                }
            } else {
                None
            },
            TokenSort::TokenPrint => match value_code(toks, i + 1, decl) {
                Some((c, j)) => Some((c.push(InstView::Print), j, decl)),
                None => None,
            },
            TokenSort::TokenGet | TokenSort::TokenPost | TokenSort::TokenPut | TokenSort::TokenDelete =>
                req_code(toks, i, decl, method_name(t.sort)),
            _ => None,
        }
    }
}

/// The code of a well-formed script from token `i` on: the code of each
/// statement in turn. `None` where some statement is not well formed.
pub open spec fn script_code(toks: Seq<Token>, i: int, decl: Set<Seq<char>>) -> Option<Seq<InstView>>
    decreases toks.len() - i,
{
    if i < 0 || i >= toks.len() {
        Some(Seq::empty())
    } else {
        match statement_code(toks, i, decl) {
            Some((c, j, d)) => if i < j <= toks.len() {
                match script_code(toks, j, d) {
                    Some(rest) => Some(c + rest),
                    None => None,
                }
            } else {
                None
            },
            None => None,
        }
    }
}

/// Whether `i` binds the name `n`.
pub open spec fn binds(i: Inst, n: Seq<char>) -> bool {
    match i {
        Inst::InstLoad(m) => m@ == n,
        _ => false,
    }
}

/// Some instruction before index `k` binds `n`.
pub open spec fn bound_before(prg: Seq<Inst>, k: int, n: Seq<char>) -> bool {
    exists|j: int| 0 <= j < k && binds(#[trigger] prg[j], n)
}

/// Every read of a variable comes after an instruction that binds it.
pub open spec fn reads_follow_bindings(prg: Seq<Inst>) -> bool {
    forall|k: int| 0 <= k < prg.len() ==> match #[trigger] prg[k] {
        Inst::InstGain(n) => bound_before(prg, k, n@),
        _ => true,
    }
}

/// A single pass over a token sequence that builds a program.
pub struct Parser {
    cursor: usize,
    tokens: Vec<Token>,
    program: Vec<Inst>,
    var_checker: Vec<String>,
}

impl Parser {
    pub closed spec fn cursor_spec(&self) -> nat {
        self.cursor as nat
    }

    pub closed spec fn tokens_spec(&self) -> Seq<Token> {
        self.tokens@
    }

    pub closed spec fn program_spec(&self) -> Seq<Inst> {
        self.program@
    }

    pub open spec fn program_view(&self) -> Seq<InstView> {
        self.program_spec().map_values(|i: Inst| i@)
    }

    /// The names declared so far.
    pub closed spec fn declared(&self) -> Set<Seq<char>> {
        Set::new(|n: Seq<char>| declared_in(self.var_checker@, n))
    }

    /// `n` appeared as the name of a binding earlier in the script.
    pub closed spec fn is_declared(&self, n: Seq<char>) -> bool {
        declared_in(self.var_checker@, n)
    }

    /// The cursor stays within the tokens, and every read of a variable in
    /// the program names a declared one.
    pub closed spec fn wf(&self) -> bool {
        &&& self.cursor <= self.tokens@.len()
        &&& forall|i: int| 0 <= i < self.program@.len() ==> match #[trigger] self.program@[i] {
            Inst::InstGain(n) => self.is_declared(n@),
            _ => true,
        }
        &&& reads_follow_bindings(self.program@)
        &&& forall|n: Seq<char>| #[trigger] declared_in(self.var_checker@, n)
            ==> bound_before(self.program@, self.program@.len() as int, n)
    }

    /// The program only grows, the tokens stay, the cursor does not go back,
    /// and no name stops being declared.
    pub open spec fn moves_on(&self, before: &Parser) -> bool {
        &&& self.wf()
        &&& self.tokens_spec() == before.tokens_spec()
        &&& before.cursor_spec() <= self.cursor_spec()
        &&& before.program_spec().len() <= self.program_spec().len()
        &&& forall|i: int| 0 <= i < before.program_spec().len()
            ==> self.program_spec()[i] == before.program_spec()[i]
        &&& forall|n: Seq<char>| before.is_declared(n) ==> #[trigger] self.is_declared(n)
    }

    pub fn new(tokens: Vec<Token>) -> (r: Self)
        ensures
            r.wf(),
            r.tokens_spec() == tokens@,
            r.cursor_spec() == 0,
            r.program_spec().len() == 0,
            r.program_view() == Seq::<InstView>::empty(),
            r.declared() == Set::<Seq<char>>::empty(),
            forall|n: Seq<char>| !r.is_declared(n),
    {
        let r = Self { cursor: 0, tokens: tokens, program: Vec::new(), var_checker: Vec::new() };
        assert(r.program_view() =~= Seq::<InstView>::empty());
        assert(r.declared() =~= Set::<Seq<char>>::empty());
        r
    }

    fn next(&mut self)
        requires
            old(self).wf(),
            old(self).cursor < old(self).tokens.len(),
        ensures
            final(self).moves_on(old(self)),
            final(self).cursor == old(self).cursor + 1,
            final(self).program@ == old(self).program@,
            final(self).var_checker@ == old(self).var_checker@,
    {
        self.cursor = self.cursor + 1;
    }

    fn current_sort(&self) -> (r: TokenSort)
        requires
            self.cursor < self.tokens@.len(),
        ensures
            r == self.tokens@[self.cursor as int].sort,
    {
        self.tokens[self.cursor].sort
    }

    fn current_value(&self) -> (r: String)
        requires
            self.cursor < self.tokens@.len(),
        ensures
            r@ == self.tokens@[self.cursor as int].content@,
    {
        self.tokens[self.cursor].content.clone()
    }

    fn reach_end(&self) -> (r: bool)
        ensures
            r == (self.cursor >= self.tokens@.len()),
    {
        self.cursor >= self.tokens.len()
    }

    /// Whether a token follows the current one; where none does, records that
    /// `s` was expected and steps past the last token.
    fn check_near_end(&mut self, s: &str, err: &mut ErrorHandler) -> (r: bool)
        requires
            old(self).wf(),
            old(self).cursor < old(self).tokens@.len(),
        ensures
            final(self).moves_on(old(self)),
            final(self).program@ == old(self).program@,
            final(self).var_checker@ == old(self).var_checker@,
            r == (old(self).cursor + 1 < old(self).tokens@.len()),
            r ==> final(self).cursor == old(self).cursor && *final(err) == *old(err),
            !r ==> final(self).cursor == old(self).cursor + 1,
            !r ==> final(err).errors@.len() == old(err).errors@.len() + 1,
            !r ==> (final(err).errors@.last() matches Error::ErrorExpectedToken(p, m)
                && p == old(self).tokens@[old(self).cursor as int].loc.end && m@ == s@),
            only_fatal(*final(err), *old(err)),
    {
        let res = self.cursor >= self.tokens.len() - 1;
        if res {
            self.add_err_exepected(s, err);
            self.next();
        }
        !res
    }

    fn add_inst(&mut self, i: Inst)
        requires
            old(self).wf(),
            i matches Inst::InstGain(n) ==> old(self).is_declared(n@),
        ensures
            final(self).moves_on(old(self)),
            final(self).cursor == old(self).cursor,
            final(self).program@ == old(self).program@.push(i),
            final(self).program_view() == old(self).program_view().push(i@),
            final(self).var_checker@ == old(self).var_checker@,
    {
        let ghost p0 = self.program@;
        self.program.push(i);
        assert(self.program_view() =~= old(self).program_view().push(i@));
        proof {
            let p1 = self.program@;
            assert forall|k: int, n: Seq<char>| 0 <= k <= p0.len() && bound_before(p0, k, n)
                implies #[trigger] bound_before(p1, k, n) by {
                let j = choose|j: int| 0 <= j < k && binds(#[trigger] p0[j], n);
                assert(p1[j] == p0[j]);
            }
            assert forall|k: int| 0 <= k < p1.len() implies match #[trigger] p1[k] {
                Inst::InstGain(n) => bound_before(p1, k, n@),
                _ => true,
            } by {
                if k < p0.len() {
                    assert(p1[k] == p0[k]);
                }
            }
            assert forall|n: Seq<char>| #[trigger] declared_in(self.var_checker@, n)
                implies bound_before(p1, p1.len() as int, n) by {
                assert(bound_before(p0, p0.len() as int, n));
                assert(bound_before(p1, p0.len() as int, n));
                let j = choose|j: int| 0 <= j < p0.len() && binds(#[trigger] p1[j], n);
            }
        }
    }

    /// Emits a push of the current token's text.
    fn add_inst_push(&mut self)
        requires
            old(self).wf(),
            old(self).cursor < old(self).tokens@.len(),
        ensures
            final(self).moves_on(old(self)),
            final(self).cursor == old(self).cursor,
            final(self).var_checker@ == old(self).var_checker@,
            final(self).program@.len() == old(self).program@.len() + 1,
            final(self).program@.last() matches Inst::InstPush(v)
                && v@ == old(self).tokens@[old(self).cursor as int].content@,
            final(self).program_view() == old(self).program_view().push(
                InstView::Push(old(self).tokens@[old(self).cursor as int].content@),
            ),
    {
        let v = self.current_value();
        self.add_inst(Inst::InstPush(v));
    }

    /// Emits a binding of the current token's text.
    fn add_inst_load(&mut self)
        requires
            old(self).wf(),
            old(self).cursor < old(self).tokens@.len(),
        ensures
            final(self).moves_on(old(self)),
            final(self).cursor == old(self).cursor,
            final(self).var_checker@ == old(self).var_checker@,
            final(self).program@.len() == old(self).program@.len() + 1,
            final(self).program@.last() matches Inst::InstLoad(v)
                && v@ == old(self).tokens@[old(self).cursor as int].content@,
    {
        let v = self.current_value();
        self.add_inst(Inst::InstLoad(v));
    }

    /// Emits a read of the current token, a declared name.
    fn add_inst_gain(&mut self)
        requires
            old(self).wf(),
            old(self).cursor < old(self).tokens@.len(),
            old(self).is_declared(old(self).tokens@[old(self).cursor as int].content@),
        ensures
            final(self).moves_on(old(self)),
            final(self).cursor == old(self).cursor,
            final(self).var_checker@ == old(self).var_checker@,
            final(self).program@.len() == old(self).program@.len() + 1,
            final(self).program@.last() matches Inst::InstGain(v)
                && v@ == old(self).tokens@[old(self).cursor as int].content@,
            final(self).program_view() == old(self).program_view().push(
                InstView::Gain(old(self).tokens@[old(self).cursor as int].content@),
            ),
    {
        let v = self.current_value();
        self.add_inst(Inst::InstGain(v));
    }

    fn add_err(&self, e: Error, err: &mut ErrorHandler)
        requires
            parser_diag(e),
        ensures
            final(err).records(*old(err), e),
            only_fatal(*final(err), *old(err)),
    {
        err.push(e);
    }

    /// Records that `s` was expected where the current token stands.
    fn add_err_unexepected(&self, s: &str, err: &mut ErrorHandler)
        requires
            1 <= self.cursor < self.tokens@.len(),
        ensures
            final(err).errors@.len() == old(err).errors@.len() + 1,
            final(err).errors@.last() matches Error::ErrorUnxepectedToken(l, m, p)
                && l == self.tokens@[self.cursor as int].loc && m@ == s@
                && p == self.tokens@[self.cursor - 1].loc.end,
            only_fatal(*final(err), *old(err)),
    {
        let e = Error::ErrorUnxepectedToken(
            self.tokens[self.cursor].loc,
            s.to_owned(),
            self.tokens[self.cursor - 1].loc.end,
        );
        self.add_err(e, err);
    }

    /// Records that `s` was expected after the current token.
    fn add_err_exepected(&self, s: &str, err: &mut ErrorHandler)
        requires
            self.cursor < self.tokens@.len(),
        ensures
            final(err).errors@.len() == old(err).errors@.len() + 1,
            final(err).errors@.last() matches Error::ErrorExpectedToken(p, m)
                && p == self.tokens@[self.cursor as int].loc.end && m@ == s@,
            only_fatal(*final(err), *old(err)),
    {
        let e = Error::ErrorExpectedToken(self.tokens[self.cursor].loc.end, s.to_owned());
        self.add_err(e, err);
    }

    /// Declares `var`, once.
    fn push_var(&mut self, var: String)
        requires
            old(self).wf(),
            bound_before(old(self).program@, old(self).program@.len() as int, var@),
        ensures
            final(self).moves_on(old(self)),
            final(self).cursor == old(self).cursor,
            final(self).program@ == old(self).program@,
            final(self).is_declared(var@),
            final(self).declared() == old(self).declared().insert(var@),
    {
        if !self.is_var(&var) {
            self.var_checker.push(var);
            assert(self.var_checker@[self.var_checker@.len() - 1]@ == var@);
            assert forall|n: Seq<char>| old(self).is_declared(n) implies #[trigger] self.is_declared(n) by {
                let i = choose|i: int| 0 <= i < old(self).var_checker@.len() && (#[trigger] old(self).var_checker@[i])@ == n;
                assert(self.var_checker@[i] == old(self).var_checker@[i]);
            }
            assert forall|n: Seq<char>| #[trigger] self.is_declared(n) implies old(self).is_declared(n) || n == var@ by {
                let i = choose|i: int| 0 <= i < self.var_checker@.len() && (#[trigger] self.var_checker@[i])@ == n;
                if i < old(self).var_checker@.len() {
                    assert(self.var_checker@[i] == old(self).var_checker@[i]);
                }
            }
        }
        assert forall|n: Seq<char>| self.declared().contains(n) == old(self).declared().insert(var@).contains(n) by {
            assert(self.declared().contains(n) == self.is_declared(n));
            assert(old(self).declared().contains(n) == old(self).is_declared(n));
        }
        assert(self.declared() =~= old(self).declared().insert(var@));
        assert forall|n: Seq<char>| #[trigger] declared_in(self.var_checker@, n)
            implies bound_before(self.program@, self.program@.len() as int, n) by {
            assert(self.is_declared(n));
            if n != var@ {
                assert(old(self).is_declared(n));
            }
        }
    }

    /// Whether `var` is declared.
    fn is_var(&self, var: &String) -> (r: bool)
        ensures
            r == self.is_declared(var@),
    {
        let mut i: usize = 0;
        while i < self.var_checker.len()
            invariant
                i <= self.var_checker@.len(),
                forall|j: int| 0 <= j < i ==> (#[trigger] self.var_checker@[j])@ != var@,
            decreases self.var_checker@.len() - i,
        {
            if self.var_checker[i] == *var {
                return true;
            }
            i = i + 1;
        }
        false
    }

    /// Whether the current token names a declared variable.
    fn check_var(&self) -> (r: bool)
        requires
            self.cursor < self.tokens@.len(),
        ensures
            r == self.is_declared(self.tokens@[self.cursor as int].content@),
    {
        let s = self.current_value();
        self.is_var(&s)
    }

    /// A `+` followed by a value: emits the join after the right operand.
    pub fn parse_plus(&mut self, err: &mut ErrorHandler)
        requires
            old(self).wf(),
        ensures
            final(self).moves_on(old(self)),
            only_fatal(*final(err), *old(err)),
            old(self).cursor_spec() >= old(self).tokens_spec().len()
                || old(self).tokens_spec()[old(self).cursor_spec() as int].sort != TokenSort::TokenPlus
                ==> *final(self) == *old(self) && *final(err) == *old(err),
            final(self).program_spec().len() > old(self).program_spec().len()
                ==> final(self).program_spec().last() == Inst::InstPlus,
            ({
                let toks = old(self).tokens_spec();
                let i = old(self).cursor_spec() as int;
                i < toks.len() && toks[i].sort == TokenSort::TokenPlus && i + 1 >= toks.len() ==> {
                    &&& final(self).program_spec() == old(self).program_spec()
                    &&& final(self).cursor_spec() == i + 1
                    &&& final(err).errors@.len() == old(err).errors@.len() + 1
                    &&& final(err).errors@.last() matches Error::ErrorExpectedToken(p, m)
                        && p == toks[i].loc.end && m@ == "a string or a variable"@
                }
            }),
            forall|i: int| old(self).program_spec().len() <= i < final(self).program_spec().len()
                ==> (#[trigger] req_kind(final(self).program_spec()[i])) is None,
            final(self).declared() == old(self).declared(),
            plus_code(old(self).tokens_spec(), old(self).cursor_spec() as int, old(self).declared()) matches Some((c, j))
                ==> final(self).program_view() == old(self).program_view() + c
                && final(self).cursor_spec() == j && *final(err) == *old(err),
        decreases old(self).tokens_spec().len() - old(self).cursor_spec(), 0nat,
    {
        if !self.reach_end() {
            if self.current_sort() == TokenSort::TokenPlus {
                if self.check_near_end("a string or a variable", err) {
                    self.next();
                    if self.parse_value(err) {
                        self.add_inst(Inst::InstPlus);
                    }
                }
            }
        }
    }

    /// A string, or a declared name, optionally joined with what follows a `+`.
    /// Returns whether a value was emitted.
    fn parse_value(&mut self, err: &mut ErrorHandler) -> (r: bool)
        requires
            old(self).wf(),
            old(self).cursor >= 1,
        ensures
            final(self).moves_on(old(self)),
            only_fatal(*final(err), *old(err)),
            r <==> final(self).program@.len() > old(self).program@.len(),
            !r ==> final(self).program@ == old(self).program@,
            forall|i: int| old(self).program@.len() <= i < final(self).program@.len()
                ==> (#[trigger] req_kind(final(self).program@[i])) is None,
            final(self).declared() == old(self).declared(),
            value_code(old(self).tokens@, old(self).cursor as int, old(self).declared()) matches Some((c, j))
                ==> final(self).program_view() == old(self).program_view() + c
                && final(self).cursor == j && *final(err) == *old(err),
            old(self).cursor >= old(self).tokens@.len() ==> !r && *final(self) == *old(self)
                && *final(err) == *old(err),
            ({
                let t = old(self).tokens@[old(self).cursor as int];
                old(self).cursor < old(self).tokens@.len() ==> {
                    &&& t.sort == TokenSort::TokenString ==> r
                        && (final(self).program@[old(self).program@.len() as int] matches Inst::InstPush(v) && v@ == t.content@)
                    &&& t.sort == TokenSort::TokenId && old(self).is_declared(t.content@) ==> r
                        && (final(self).program@[old(self).program@.len() as int] matches Inst::InstGain(v) && v@ == t.content@)
                    &&& t.sort != TokenSort::TokenString && t.sort != TokenSort::TokenId ==> {
                        &&& !r
                        &&& *final(self) == *old(self)
                        &&& final(err).errors@.len() == old(err).errors@.len() + 1
                        &&& final(err).errors@.last() matches Error::ErrorUnxepectedToken(l, m, p)
                            && l == t.loc && p == old(self).tokens@[old(self).cursor - 1].loc.end
                            && m@ == "a string or a variable"@
                    }
                }
            }),
            ({
                let t = old(self).tokens@[old(self).cursor as int];
                old(self).cursor < old(self).tokens@.len() && t.sort == TokenSort::TokenId
                    && !old(self).is_declared(t.content@) ==> {
                    &&& !r
                    &&& final(self).program@ == old(self).program@
                    &&& final(self).cursor == old(self).cursor + 1
                    &&& final(err).errors@.len() == old(err).errors@.len() + 1
                    &&& final(err).errors@.last() matches Error::ErrorNullVar(l, n)
                        && l == t.loc && n@ == t.content@
                }
            }),
        decreases old(self).tokens_spec().len() - old(self).cursor_spec(), 1nat,
    {
        if !self.reach_end() {
            match self.current_sort() {
                TokenSort::TokenString => {
                    self.add_inst_push();
                    self.next();
                    self.parse_plus(err);
                    return true;
                },
                TokenSort::TokenId => {
                    if self.check_var() {
                        self.add_inst_gain();
                        self.next();
                        self.parse_plus(err);
                        return true;
                    } else {
                        let e = Error::ErrorNullVar(
                            self.tokens[self.cursor].loc,
                            self.current_value(),
                        );
                        self.add_err(e, err);
                        self.next();
                    }
                },
                _ => self.add_err_unexepected("a string or a variable", err),
            }
        }
        false
    }

    /// `name = value`: emits the value, then the binding of `name`.
    fn parse_id(&mut self, err: &mut ErrorHandler)
        requires
            old(self).wf(),
            old(self).cursor < old(self).tokens@.len(),
        ensures
            final(self).moves_on(old(self)),
            final(self).cursor > old(self).cursor,
            only_fatal(*final(err), *old(err)),
            final(self).program@.len() > old(self).program@.len() ==> {
                let name = old(self).tokens@[old(self).cursor as int].content@;
                &&& final(self).program@.last() matches Inst::InstLoad(n) && n@ == name
                &&& final(self).is_declared(name)
            },
            ({
                let toks = old(self).tokens@;
                let i = old(self).cursor as int;
                i + 1 < toks.len() && toks[i + 1].sort == TokenSort::TokenEq ==> (
                    value_code(toks, i + 2, old(self).declared()) matches Some((c, j))
                    ==> final(self).program_view() == old(self).program_view() + c.push(InstView::Load(toks[i].content@))
                    && final(self).cursor == j && *final(err) == *old(err)
                    && final(self).declared() == old(self).declared().insert(toks[i].content@))
            }),
            ({
                let toks = old(self).tokens@;
                let i = old(self).cursor as int;
                i + 1 < toks.len() && toks[i + 1].sort != TokenSort::TokenEq ==> {
                    &&& final(self).program@ == old(self).program@
                    &&& final(self).cursor == i + 1
                    &&& final(err).errors@.len() == old(err).errors@.len() + 1
                    &&& final(err).errors@.last() matches Error::ErrorUnxepectedToken(l, m, p)
                        && l == toks[i + 1].loc && m@ == "an equal sign"@ && p == toks[i].loc.end
                }
            }),
    {
        if self.check_near_end("a token", err) {
            let var = self.current_value();
            self.next();
            if self.current_sort() == TokenSort::TokenEq {
                if self.check_near_end("a string or a variable", err) {
                    self.next();
                    if self.parse_value(err) {
                        self.add_inst(Inst::InstLoad(var.clone()));
                        assert(binds(self.program@[self.program@.len() - 1], var@));
                        self.push_var(var);
                        proof {
                            let toks = old(self).tokens@;
                            let i = old(self).cursor as int;
                            if let Some((c, j)) = value_code(toks, i + 2, old(self).declared()) {
                                assert(self.program_view() =~= old(self).program_view() + c.push(InstView::Load(toks[i].content@)));
                            }
                        }
                    }
                }
            } else {
                self.add_err_unexepected("an equal sign", err)
            }
        }
    }

    /// `print value`: emits the value, then the print.
    fn parse_print(&mut self, err: &mut ErrorHandler)
        requires
            old(self).wf(),
            old(self).cursor < old(self).tokens@.len(),
        ensures
            final(self).moves_on(old(self)),
            final(self).cursor > old(self).cursor,
            only_fatal(*final(err), *old(err)),
            final(self).program@.len() > old(self).program@.len() ==> final(self).program@.last() == Inst::InstPrint,
            value_code(old(self).tokens@, old(self).cursor + 1, old(self).declared()) matches Some((c, j))
                ==> final(self).program_view() == old(self).program_view() + c.push(InstView::Print)
                && final(self).cursor == j && *final(err) == *old(err),
            final(self).declared() == old(self).declared(),
    {
        if self.check_near_end("a string or a variable", err) {
            self.next();
            if self.parse_value(err) {
                self.add_inst(Inst::InstPrint);
                proof {
                    if let Some((c, j)) = value_code(old(self).tokens@, old(self).cursor + 1, old(self).declared()) {
                        assert(self.program_view() =~= old(self).program_view() + c.push(InstView::Print));
                    }
                }
            }
        }
    }


    /// An optional `body value`; returns whether a body was emitted.
    fn parse_body(&mut self, err: &mut ErrorHandler) -> (r: bool)
        requires
            old(self).wf(),
            old(self).cursor >= 1,
        ensures
            final(self).moves_on(old(self)),
            only_fatal(*final(err), *old(err)),
            final(self).declared() == old(self).declared(),
            forall|i: int| old(self).program@.len() <= i < final(self).program@.len()
                ==> (#[trigger] req_kind(final(self).program@[i])) is None,
            body_code(old(self).tokens@, old(self).cursor as int, old(self).declared()) matches Some((c, hb, j))
                ==> final(self).program_view() == old(self).program_view() + c
                && final(self).cursor == j && *final(err) == *old(err) && r == hb,
    {
        if !self.reach_end() && self.current_sort() == TokenSort::TokenBody {
            if self.check_near_end("a string or a variable", err) {
                self.next();
                return self.parse_value(err);
            }
        }
        false
    }

    /// The expected status, then the trailing form of a request.
    fn parse_req_end(&mut self, method: &str, body: bool, err: &mut ErrorHandler)
        requires
            old(self).wf(),
            old(self).cursor >= 1,
        ensures
            final(self).moves_on(old(self)),
            only_fatal(*final(err), *old(err)),
            forall|i: int| old(self).program@.len() <= i < final(self).program@.len()
                && (#[trigger] req_kind(final(self).program@[i])) is Some
                ==> req_parts(final(self).program@[i]).0 == method@,
            ({
                let (st, j) = status_code(old(self).tokens@, old(self).cursor as int);
                tail_code(old(self).tokens@, j, old(self).declared(), method@, body) matches Some((t, k, d))
                    ==> final(self).program_view() == old(self).program_view() + seq![st] + t
                    && final(self).cursor == k && *final(err) == *old(err) && final(self).declared() == d
            }),
    {
        if !self.reach_end() && self.current_sort() == TokenSort::TokenNumber {
            self.add_inst_push();
            self.next();
        } else {
            self.add_inst(Inst::InstPush(default_status()));
        }
        let ghost mid = self.program_view();
        self.parse_req_tail(method, body, err);
        proof {
            let (st, j) = status_code(old(self).tokens@, old(self).cursor as int);
            assert(mid == old(self).program_view().push(st));
            if let Some((t, k, d)) = tail_code(old(self).tokens@, j, old(self).declared(), method@, body) {
                assert(self.program_view() =~= old(self).program_view() + seq![st] + t);
            }
        }
    }

    /// The trailing form of a request: `= name`, `? value`, or neither.
    fn parse_req_tail(&mut self, method: &str, body: bool, err: &mut ErrorHandler)
        requires
            old(self).wf(),
            old(self).cursor >= 1,
        ensures
            final(self).moves_on(old(self)),
            only_fatal(*final(err), *old(err)),
            forall|i: int| old(self).program@.len() <= i < final(self).program@.len()
                && (#[trigger] req_kind(final(self).program@[i])) is Some
                ==> req_parts(final(self).program@[i]).0 == method@,
            tail_code(old(self).tokens@, old(self).cursor as int, old(self).declared(), method@, body) matches Some((t, k, d))
                ==> final(self).program_view() == old(self).program_view() + t
                && final(self).cursor == k && *final(err) == *old(err) && final(self).declared() == d,
            ({
                let toks = old(self).tokens@;
                let i = old(self).cursor as int;
                i + 1 == toks.len() && toks[i].sort == TokenSort::TokenEq ==> {
                    &&& final(self).program@ == old(self).program@
                    &&& final(err).errors@.len() == old(err).errors@.len() + 1
                    &&& final(err).errors@.last() matches Error::ErrorExpectedToken(p, m)
                        && p == toks[i].loc.end && m@ == "a variable name"@
                }
            }),
            ({
                let toks = old(self).tokens@;
                let i = old(self).cursor as int;
                i + 1 < toks.len() && toks[i].sort == TokenSort::TokenEq && toks[i + 1].sort != TokenSort::TokenId ==> {
                    &&& final(self).program@ == old(self).program@
                    &&& final(self).cursor == i + 1
                    &&& final(err).errors@.len() == old(err).errors@.len() + 1
                    &&& final(err).errors@.last() matches Error::ErrorUnxepectedToken(l, m, p)
                        && l == toks[i + 1].loc && m@ == "a variable name"@ && p == toks[i].loc.end
                }
            }),
    {
        if self.reach_end() {
            self.add_inst(Inst::InstReq(method.to_owned(), body));
            return;
        }
        match self.current_sort() {
            TokenSort::TokenEq => {
                if self.check_near_end("a variable name", err) {
                    self.next();
                    if self.current_sort() == TokenSort::TokenId {
                        let var = self.current_value();
                        self.add_inst(Inst::InstReqandPush(method.to_owned(), body));
                        self.add_inst_load();
                        self.push_var(var);
                        self.next();
                        assert(self.program_view() =~= old(self).program_view() + seq![
                            InstView::ReqandPush(method@, body),
                            InstView::Load(old(self).tokens@[old(self).cursor + 1].content@),
                        ]);
                    } else {
                        self.add_err_unexepected("a variable name", err);
                    }
                }
            },
            TokenSort::TokenQmark => {
                if self.check_near_end("a string or a variable", err) {
                    self.next();
                    if self.parse_value(err) {
                        self.add_inst(Inst::InstReqandCompare(method.to_owned(), body));
                        proof {
                            if let Some((c, j)) = value_code(old(self).tokens@, old(self).cursor + 1, old(self).declared()) {
                                assert(self.program_view() =~= old(self).program_view() + c.push(InstView::ReqandCompare(method@, body)));
                            }
                        }
                    }
                }
            },
            _ => {
                self.add_inst(Inst::InstReq(method.to_owned(), body));
            },
        }
    }

    /// `METHOD url [body value] [status] [= name | ? value]`: emits the url,
    /// the body, the expected status (`200` where none is given) and, for a
    /// comparison, the expected content, followed by the request itself.
    pub fn parse_req(&mut self, method: &str, err: &mut ErrorHandler)
        requires
            old(self).wf(),
            old(self).cursor_spec() < old(self).tokens_spec().len(),
        ensures
            final(self).moves_on(old(self)),
            final(self).cursor_spec() > old(self).cursor_spec(),
            only_fatal(*final(err), *old(err)),
            forall|i: int| old(self).program_spec().len() <= i < final(self).program_spec().len()
                && (#[trigger] req_kind(final(self).program_spec()[i])) is Some
                ==> req_parts(final(self).program_spec()[i]).0 == method@,
            req_code(old(self).tokens_spec(), old(self).cursor_spec() as int, old(self).declared(), method@) matches Some((c, j, d))
                ==> final(self).program_view() == old(self).program_view() + c
                && final(self).cursor_spec() == j && *final(err) == *old(err) && final(self).declared() == d,
            ({
                let toks = old(self).tokens_spec();
                let i = old(self).cursor_spec() as int;
                i + 1 >= toks.len() ==> {
                    &&& final(self).program_spec() == old(self).program_spec()
                    &&& final(self).cursor_spec() == i + 1
                    &&& final(err).errors@.len() == old(err).errors@.len() + 1
                    &&& final(err).errors@.last() matches Error::ErrorExpectedToken(p, m)
                        && p == toks[i].loc.end && m@ == "a string or a variable"@
                }
            }),
    {
        if self.check_near_end("a string or a variable", err) {
            self.next();
            if self.parse_value(err) {
                let body = self.parse_body(err);
                self.parse_req_end(method, body, err);
                proof {
                    let toks = old(self).tokens@;
                    let decl = old(self).declared();
                    if let Some((c, j, d)) = req_code(toks, old(self).cursor as int, decl, method@) {
                        let (u, j1) = value_code(toks, old(self).cursor + 1, decl).unwrap();
                        let (b, hb, j2) = body_code(toks, j1, decl).unwrap();
                        let (st, j3) = status_code(toks, j2);
                        let (t, j4, d4) = tail_code(toks, j3, decl, method@, hb).unwrap();
                        assert(self.program_view() =~= old(self).program_view() + (u + b + seq![st] + t));
                    }
                }
            }
        }
    }

    /// One statement, or one token that cannot start one.
    fn parse_statement(&mut self, err: &mut ErrorHandler)
        requires
            old(self).wf(),
            old(self).cursor < old(self).tokens@.len(),
        ensures
            final(self).moves_on(old(self)),
            final(self).cursor > old(self).cursor,
            only_fatal(*final(err), *old(err)),
            statement_code(old(self).tokens@, old(self).cursor as int, old(self).declared()) matches Some((c, j, d))
                ==> final(self).program_view() == old(self).program_view() + c
                && final(self).cursor == j && *final(err) == *old(err) && final(self).declared() == d,
            ({
                let t = old(self).tokens@[old(self).cursor as int];
                !(t.sort is TokenId || t.sort is TokenPrint || t.sort is TokenGet || t.sort is TokenPost
                    || t.sort is TokenPut || t.sort is TokenDelete) ==> {
                    &&& final(self).program@ == old(self).program@
                    &&& final(self).cursor == old(self).cursor + 1
                    &&& final(err).errors@.len() == old(err).errors@.len() + 1
                    &&& final(err).errors@.last() matches Error::ErrorNoParse(p, m) && p == t.loc.start
                        && m@ == (if t.sort is TokenString { seq!['"'] + t.content@ + seq!['"'] } else { t.content@ })
                }
            }),
    {
        match self.current_sort() {
            TokenSort::TokenId => self.parse_id(err),
            TokenSort::TokenPrint => self.parse_print(err),
            TokenSort::TokenGet => {
                let m = "GET";
                proof {
                    reveal_strlit("GET");
                    assert(m@ =~= seq!['G', 'E', 'T']);
                }
                self.parse_req(m, err)
            },
            TokenSort::TokenPost => {
                let m = "POST";
                proof {
                    reveal_strlit("POST");
                    assert(m@ =~= seq!['P', 'O', 'S', 'T']);
                }
                self.parse_req(m, err)
            },
            TokenSort::TokenPut => {
                let m = "PUT";
                proof {
                    reveal_strlit("PUT");
                    assert(m@ =~= seq!['P', 'U', 'T']);
                }
                self.parse_req(m, err)
            },
            TokenSort::TokenDelete => {
                let m = "DELETE";
                proof {
                    reveal_strlit("DELETE");
                    assert(m@ =~= seq!['D', 'E', 'L', 'E', 'T', 'E']);
                }
                self.parse_req(m, err)
            },
            TokenSort::TokenString => {
                proof {
                    reveal_strlit("\"");
                }
                let mut quoted = "\"".to_owned();
                quoted.append(self.tokens[self.cursor].content.as_str());
                quoted.append("\"");
                let e = Error::ErrorNoParse(self.tokens[self.cursor].loc.start, quoted);
                self.add_err(e, err);
                self.next();
            },
            _ => {
                let e = Error::ErrorNoParse(self.tokens[self.cursor].loc.start, self.current_value());
                self.add_err(e, err);
                self.next();
            },
        }
    }

    /// Parses every statement, recovering after each error, and returns the
    /// program built.
    pub fn parse(&mut self, err: &mut ErrorHandler) -> (r: Vec<Inst>)
        requires
            old(self).wf(),
        ensures
            final(self).moves_on(old(self)),
            final(self).cursor_spec() == final(self).tokens_spec().len(),
            r@ == final(self).program_spec(),
            only_fatal(*final(err), *old(err)),
            forall|i: int| 0 <= i < r@.len() ==> match #[trigger] r@[i] {
                Inst::InstGain(n) => final(self).is_declared(n@),
                _ => true,
            },
            reads_follow_bindings(r@),
            script_code(old(self).tokens_spec(), old(self).cursor_spec() as int, old(self).declared()) matches Some(c)
                ==> final(self).program_view() == old(self).program_view() + c && *final(err) == *old(err),
    {
        while !self.reach_end()
            invariant
                self.moves_on(old(self)),
                only_fatal(*err, *old(err)),
                script_code(old(self).tokens@, old(self).cursor as int, old(self).declared()) matches Some(all) ==> (
                    script_code(self.tokens@, self.cursor as int, self.declared()) matches Some(rest)
                    && old(self).program_view() + all == self.program_view() + rest
                    && *err == *old(err)),
            decreases self.tokens@.len() - self.cursor,
        {
            let ghost before = *self;
            self.parse_statement(err);
            proof {
                let toks = self.tokens@;
                if let Some((c, j, d)) = statement_code(toks, before.cursor as int, before.declared()) {
                    if let Some(rest) = script_code(toks, j, d) {
                        assert(before.program_view() + (c + rest) =~= self.program_view() + rest);
                    }
                }
            }
        }
        let mut out: Vec<Inst> = Vec::new();
        let mut i: usize = 0;
        while i < self.program.len()
            invariant
                i <= self.program@.len(),
                out@ == self.program@.subrange(0, i as int),
            decreases self.program@.len() - i,
        {
            out.push(self.program[i].duplicate());
            i = i + 1;
        }
        assert(out@ =~= self.program@);
        out
    }
}

} // verus!
