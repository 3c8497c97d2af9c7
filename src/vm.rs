use vstd::prelude::*;

verus! {

/// One instruction of a program.
///
/// `InstPush` pushes a literal, `InstLoad` binds a name to the top of the stack
/// without popping it, `InstGain` pushes the value bound to a name, `InstPlus`
/// joins the two topmost values and `InstPrint` emits the topmost one. The three
/// request forms carry the method and whether a body operand is present.
#[derive(PartialEq, Clone, Debug)]
pub enum Inst {
    InstPush(String),
    InstLoad(String),
    InstGain(String),
    InstPlus,
    InstPrint,
    InstReq(String, bool),
    InstReqandPush(String, bool),
    InstReqandCompare(String, bool),
}

/// An instruction with its texts as character sequences.
pub enum InstView {
    Push(Seq<char>),
    Load(Seq<char>),
    Gain(Seq<char>),
    Plus,
    Print,
    Req(Seq<char>, bool),
    ReqandPush(Seq<char>, bool),
    ReqandCompare(Seq<char>, bool),
}

impl View for Inst {
    type V = InstView;

    open spec fn view(&self) -> InstView {
        match self {
            Inst::InstPush(s) => InstView::Push(s@),
            Inst::InstLoad(s) => InstView::Load(s@),
            Inst::InstGain(s) => InstView::Gain(s@),
            Inst::InstPlus => InstView::Plus,
            Inst::InstPrint => InstView::Print,
            Inst::InstReq(m, b) => InstView::Req(m@, *b),
            Inst::InstReqandPush(m, b) => InstView::ReqandPush(m@, *b),
            Inst::InstReqandCompare(m, b) => InstView::ReqandCompare(m@, *b),
        }
    }
}

impl Inst {
    /// An identical instruction.
    pub fn duplicate(&self) -> (r: Inst)
        ensures
            r == *self,
    {
        match self {
            Inst::InstPush(s) => Inst::InstPush(s.clone()),
            Inst::InstLoad(s) => Inst::InstLoad(s.clone()),
            Inst::InstGain(s) => Inst::InstGain(s.clone()),
            Inst::InstPlus => Inst::InstPlus,
            Inst::InstPrint => Inst::InstPrint,
            Inst::InstReq(m, b) => Inst::InstReq(m.clone(), *b),
            Inst::InstReqandPush(m, b) => Inst::InstReqandPush(m.clone(), *b),
            Inst::InstReqandCompare(m, b) => Inst::InstReqandCompare(m.clone(), *b),
        }
    }
}

/// The three forms of request.
#[derive(PartialEq, Eq, Structural, Clone, Copy, Debug)]
pub enum ReqKind {
    Plain,
    Capture,
    Compare,
}

/// Why a route failed.
#[derive(PartialEq, Eq, Structural, Clone, Copy, Debug)]
pub enum Failure {
    /// The request could not be made.
    Unreachable,
    /// The response came with another status.
    WrongStatus,
    /// The response had the expected status but another body.
    WrongContent,
}

/// A failed route, for the caller to report.
#[derive(PartialEq, Debug)]
pub struct RouteError {
    pub method: String,
    pub url: String,
    pub failure: Failure,
}

/// What the caller has to do after a step.
#[derive(PartialEq, Debug)]
pub enum Action {
    /// Nothing: go on with the next step.
    Next,
    /// Emit this value.
    Print(String),
    /// Make this request (method, url, body), then hand the outcome to `complete`.
    Call(String, String, Option<String>),
    /// The program is done: the routes that passed and those that failed.
    Finished(usize, usize),
}

/// The form of a request instruction, if it is one.
pub open spec fn req_kind(i: Inst) -> Option<ReqKind> {
    match i {
        Inst::InstReq(_, _) => Some(ReqKind::Plain),
        Inst::InstReqandPush(_, _) => Some(ReqKind::Capture),
        Inst::InstReqandCompare(_, _) => Some(ReqKind::Compare),
        _ => None,
    }
}

/// The method and body flag of a request instruction.
pub open spec fn req_parts(i: Inst) -> (Seq<char>, bool) {
    match i {
        Inst::InstReq(m, b) => (m@, b),
        Inst::InstReqandPush(m, b) => (m@, b),
        Inst::InstReqandCompare(m, b) => (m@, b),
        _ => (Seq::empty(), false),
    }
}

/// How many operands a request pops before the call: the expected content
/// of a comparison, the expected status, and the body where there is one.
pub open spec fn popped_before_call(i: Inst) -> nat {
    (if req_kind(i) == Some(ReqKind::Compare) { 2nat } else { 1nat }) + (if req_parts(i).1 { 1nat } else { 0nat })
}

/// The effect of an instruction that is not a request on the stack and the
/// variables.
pub open spec fn exec_plain(
    i: Inst,
    stack: Seq<Seq<char>>,
    vars: Map<Seq<char>, Seq<char>>,
    quiet: bool,
) -> (Seq<Seq<char>>, Map<Seq<char>, Seq<char>>) {
    match i {
        Inst::InstPush(v) => (stack.push(v@), vars),
        Inst::InstLoad(n) => if stack.len() > 0 {
            (stack, vars.insert(n@, stack.last()))
        } else {
            (stack, vars)
        },
        Inst::InstGain(n) => if vars.contains_key(n@) {
            (stack.push(vars[n@]), vars)
        } else {
            (stack, vars)
        },
        Inst::InstPlus => if stack.len() >= 2 {
            (stack.subrange(0, stack.len() - 2).push(stack[stack.len() - 2] + stack.last()), vars)
        } else {
            (stack, vars)
        },
        Inst::InstPrint => if !quiet && stack.len() > 0 {
            (stack.drop_last(), vars)
        } else {
            (stack, vars)
        },
        _ => (stack, vars),
    }
}

/// The table holds each name once, and `vars` is what it binds.
pub open spec fn table_wf(var: Seq<(String, String)>, vars: Map<Seq<char>, Seq<char>>) -> bool {
    &&& forall|i: int, j: int| 0 <= i < j < var.len() ==> (#[trigger] var[i]).0@ != (#[trigger] var[j]).0@
    &&& forall|i: int| 0 <= i < var.len() ==> vars.contains_key((#[trigger] var[i]).0@)
        && vars[var[i].0@] == var[i].1@
    &&& forall|k: Seq<char>| #[trigger] vars.contains_key(k) ==> exists|i: int| 0 <= i < var.len() && (#[trigger] var[i]).0@ == k
}

/// Printing leaves the depth of the stack as it is in quiet mode, and
/// otherwise takes exactly one value off (a value has to be there to print).
pub proof fn print_depth(stack: Seq<Seq<char>>, vars: Map<Seq<char>, Seq<char>>, quiet: bool)
    requires
        quiet || stack.len() > 0,
    ensures
        exec_plain(Inst::InstPrint, stack, vars, quiet).0.len() == (if quiet {
            stack.len() as int
        } else {
            stack.len() - 1
        }),
        exec_plain(Inst::InstPrint, stack, vars, quiet).1 == vars,
{
}

/// Joining runs left to right: with `a`, `b` and `c` pushed in this order,
/// two joins leave `a`, `b`, `c` concatenated in that order, on top of what
/// lay below.
pub proof fn join_left_to_right(
    below: Seq<Seq<char>>,
    a: Seq<char>,
    b: Seq<char>,
    c: Seq<char>,
    vars: Map<Seq<char>, Seq<char>>,
    quiet: bool,
)
    ensures
        exec_plain(
            Inst::InstPlus,
            exec_plain(Inst::InstPlus, below.push(a).push(b).push(c), vars, quiet).0,
            vars,
            quiet,
        ).0 == below.push(a + b + c),
{
    let s0 = below.push(a).push(b).push(c);
    let s1 = exec_plain(Inst::InstPlus, s0, vars, quiet).0;
    assert(s0.subrange(0, s0.len() - 2) =~= below.push(a));
    assert(s1 =~= below.push(a).push(b + c));
    assert(s1.subrange(0, s1.len() - 2) =~= below);
    assert(a + (b + c) =~= a + b + c);
}

/// The view of a response: its body and status.
pub open spec fn response_view(r: Option<(String, String)>) -> Option<(Seq<char>, Seq<char>)> {
    match r {
        Some((b, c)) => Some((b@, c@)),
        None => None,
    }
}

/// Whether a route fails, and why: no response, another status, or, for a
/// comparison, another body.
pub open spec fn route_outcome(
    kind: ReqKind,
    status: Seq<char>,
    content: Seq<char>,
    response: Option<(Seq<char>, Seq<char>)>,
) -> Option<Failure> {
    match response {
        None => Some(Failure::Unreachable),
        Some((body, code)) => if code != status {
            Some(Failure::WrongStatus)
        } else if kind == ReqKind::Compare && body != content {
            Some(Failure::WrongContent)
        } else {
            None
        },
    }
}

/// A request whose operands are taken and whose outcome is awaited.
struct Pending {
    kind: ReqKind,
    method: String,
    status: String,
    content: String,
}

/// A stack machine that runs a program one instruction at a time.
///
/// Requests are handed to the caller: `step` returns `Action::Call`, and the
/// caller passes the response (its body and status) or `None` to `complete`.
pub struct Vm {
    stack: Vec<String>,
    var: Vec<(String, String)>,
    vars: Ghost<Map<Seq<char>, Seq<char>>>,
    prg: Vec<Inst>,
    cursor: usize,
    ok: usize,
    err: usize,
    silent: bool,
    quiet: bool,
    blocking: bool,
    pending: Option<Pending>,
}

impl Vm {
    pub closed spec fn stack_spec(&self) -> Seq<Seq<char>> {
        self.stack@.map_values(|s: String| s@)
    }

    pub closed spec fn vars_spec(&self) -> Map<Seq<char>, Seq<char>> {
        self.vars@
    }

    pub closed spec fn prg_spec(&self) -> Seq<Inst> {
        self.prg@
    }

    pub closed spec fn cursor_spec(&self) -> nat {
        self.cursor as nat
    }

    pub closed spec fn ok_spec(&self) -> nat {
        self.ok as nat
    }

    pub closed spec fn err_spec(&self) -> nat {
        self.err as nat
    }

    pub closed spec fn modes(&self) -> (bool, bool, bool) {
        (self.silent, self.quiet, self.blocking)
    }

    /// The awaited request: its form, method, expected status and expected content.
    pub closed spec fn pending_spec(&self) -> Option<(ReqKind, Seq<char>, Seq<char>, Seq<char>)> {
        match self.pending {
            Some(p) => Some((p.kind, p.method@, p.status@, p.content@)),
            None => None,
        }
    }

    pub closed spec fn wf(&self) -> bool {
        &&& self.cursor <= self.prg@.len()
        &&& self.ok + self.err + (if self.pending is Some { 1int } else { 0int }) <= self.cursor
        &&& self.pending is Some ==> self.stack@.len() > 0
        &&& table_wf(self.var@, self.vars@)
    }

    pub fn new(prg: Vec<Inst>, silent: bool, quiet: bool, blocking: bool) -> (r: Self)
        ensures
            r.wf(),
            r.prg_spec() == prg@,
            r.stack_spec().len() == 0,
            r.vars_spec() == Map::<Seq<char>, Seq<char>>::empty(),
            r.cursor_spec() == 0,
            r.ok_spec() == 0,
            r.err_spec() == 0,
            r.modes() == (silent, quiet, blocking),
            r.pending_spec() is None,
    {
        let r = Self {
            stack: Vec::new(),
            var: Vec::new(),
            vars: Ghost(Map::empty()),
            prg: prg,
            cursor: 0,
            ok: 0,
            err: 0,
            silent: silent,
            quiet: quiet,
            blocking: blocking,
            pending: None,
        };
        assert(r.stack_spec() =~= Seq::<Seq<char>>::empty());
        r
    }

    /// Whether a failure has to end the run: blocking mode after any failure.
    pub fn must_stop(&self) -> (r: bool)
        ensures
            r == (self.modes().2 && self.err_spec() > 0),
    {
        self.blocking && self.err != 0
    }

    /// Where `n` is bound in the variable table.
    fn find_var(&self, n: &String) -> (r: Option<usize>)
        requires
            self.wf(),
        ensures
            r matches Some(i) ==> i < self.var@.len() && self.var@[i as int].0@ == n@,
            r is None ==> !self.vars@.contains_key(n@),
    {
        let mut i: usize = 0;
        while i < self.var.len()
            invariant
                self.wf(),
                i <= self.var@.len(),
                forall|j: int| 0 <= j < i ==> (#[trigger] self.var@[j]).0@ != n@,
            decreases self.var@.len() - i,
        {
            if self.var[i].0 == *n {
                return Some(i);
            }
            i = i + 1;
        }
        None
    }

    /// Binds `n` to `v`.
    fn set_var(&mut self, n: String, v: String)
        requires
            old(self).wf(),
        ensures
            final(self).wf(),
            final(self).vars@ == old(self).vars@.insert(n@, v@),
            final(self).stack == old(self).stack,
            final(self).prg == old(self).prg,
            final(self).cursor == old(self).cursor,
            final(self).ok == old(self).ok,
            final(self).err == old(self).err,
            final(self).modes() == old(self).modes(),
            final(self).pending == old(self).pending,
    {
        let ghost key = n@;
        let ghost val = v@;
        match self.find_var(&n) {
            Some(i) => {
                self.var[i] = (n, v);
                self.vars = Ghost(self.vars@.insert(key, val));
                assert forall|k: Seq<char>| #[trigger] self.vars@.contains_key(k) implies exists|j: int|
                    0 <= j < self.var@.len() && (#[trigger] self.var@[j]).0@ == k by {
                    if k == key {
                        assert(self.var@[i as int].0@ == k);
                    } else {
                        let j = choose|j: int| 0 <= j < old(self).var@.len() && (#[trigger] old(self).var@[j]).0@ == k;
                        assert(self.var@[j] == old(self).var@[j]);
                    }
                }
            },
            None => {
                self.var.push((n, v));
                self.vars = Ghost(self.vars@.insert(key, val));
                let ghost last = self.var@.len() - 1;
                assert(self.var@[last].0@ == key);
                assert forall|k: Seq<char>| #[trigger] self.vars@.contains_key(k) implies exists|j: int|
                    0 <= j < self.var@.len() && (#[trigger] self.var@[j]).0@ == k by {
                    if k == key {
                        assert(self.var@[last].0@ == k);
                    } else {
                        let j = choose|j: int| 0 <= j < old(self).var@.len() && (#[trigger] old(self).var@[j]).0@ == k;
                        assert(self.var@[j] == old(self).var@[j]);
                    }
                }
            },
        }
    }

    /// Takes the top of the stack off.
    fn pop_top(&mut self) -> (r: String)
        requires
            old(self).stack@.len() > 0,
        ensures
            r@ == old(self).stack_spec().last(),
            final(self).stack_spec() == old(self).stack_spec().drop_last(),
            final(self).stack@ == old(self).stack@.drop_last(),
            final(self).var == old(self).var,
            final(self).vars == old(self).vars,
            final(self).prg == old(self).prg,
            final(self).cursor == old(self).cursor,
            final(self).ok == old(self).ok,
            final(self).err == old(self).err,
            final(self).modes() == old(self).modes(),
            final(self).pending == old(self).pending,
    {
        let r = self.stack.pop().unwrap();
        assert(self.stack_spec() =~= old(self).stack_spec().drop_last());
        r
    }

    /// Puts `v` on top of the stack.
    fn push_top(&mut self, v: String)
        ensures
            final(self).stack_spec() == old(self).stack_spec().push(v@),
            final(self).stack@.len() == old(self).stack@.len() + 1,
            final(self).var == old(self).var,
            final(self).vars == old(self).vars,
            final(self).prg == old(self).prg,
            final(self).cursor == old(self).cursor,
            final(self).ok == old(self).ok,
            final(self).err == old(self).err,
            final(self).modes() == old(self).modes(),
            final(self).pending == old(self).pending,
    {
        self.stack.push(v);
        assert(self.stack_spec() =~= old(self).stack_spec().push(v@));
    }

    /// Runs the instruction under the cursor, or reports the end of the
    /// program. A request with enough operands takes them off the stack and is
    /// handed to the caller, the url staying on top until `complete`; one
    /// without enough fails at once, with no call and the stack untouched.
    pub fn step(&mut self) -> (a: Action)
        requires
            old(self).wf(),
            old(self).pending_spec() is None,
        ensures
            final(self).wf(),
            final(self).prg_spec() == old(self).prg_spec(),
            final(self).modes() == old(self).modes(),
            old(self).cursor_spec() >= old(self).prg_spec().len() ==> *final(self) == *old(self)
                && a == Action::Finished(old(self).ok_spec() as usize, old(self).err_spec() as usize),
            old(self).cursor_spec() < old(self).prg_spec().len() ==> ({
                let i = old(self).prg_spec()[old(self).cursor_spec() as int];
                let st = old(self).stack_spec();
                let (quiet, n) = (old(self).modes().1, popped_before_call(i));
                &&& final(self).cursor_spec() == old(self).cursor_spec() + 1
                &&& final(self).ok_spec() == old(self).ok_spec()
                &&& final(self).vars_spec() == (if req_kind(i) is None {
                    exec_plain(i, st, old(self).vars_spec(), quiet).1
                } else {
                    old(self).vars_spec()
                })
                &&& req_kind(i) is None ==> {
                    &&& final(self).stack_spec() == exec_plain(i, st, old(self).vars_spec(), quiet).0
                    &&& final(self).err_spec() == old(self).err_spec()
                    &&& final(self).pending_spec() is None
                    &&& if i is InstPrint && !quiet && st.len() > 0 {
                        a matches Action::Print(v) && v@ == st.last()
                    } else {
                        a == Action::Next
                    }
                }
                &&& req_kind(i) is Some && st.len() < n + 1 ==> {
                    &&& final(self).stack_spec() == st
                    &&& final(self).err_spec() == old(self).err_spec() + 1
                    &&& final(self).pending_spec() is None
                    &&& a == Action::Next
                }
                &&& req_kind(i) is Some && st.len() >= n + 1 ==> {
                    &&& final(self).stack_spec() == st.subrange(0, st.len() - n)
                    &&& final(self).err_spec() == old(self).err_spec()
                    &&& final(self).pending_spec() matches Some((k, m, status, content)) && {
                        &&& Some(k) == req_kind(i)
                        &&& m == req_parts(i).0
                        &&& status == st[st.len() - (if k == ReqKind::Compare { 2int } else { 1int })]
                        &&& k == ReqKind::Compare ==> content == st.last()
                    }
                    &&& a matches Action::Call(m, url, body) && {
                        &&& m@ == req_parts(i).0
                        &&& url@ == st[st.len() - n - 1]
                        &&& (body is Some <==> req_parts(i).1)
                        &&& body matches Some(b) ==> b@ == st[st.len() - n]
                    }
                }
            }),
    {
        if self.cursor >= self.prg.len() {
            return Action::Finished(self.ok, self.err);
        }
        let i = self.prg[self.cursor].duplicate();
        match &i {
            Inst::InstReq(m, b) => return self.take_request(ReqKind::Plain, m.clone(), *b),
            Inst::InstReqandPush(m, b) => return self.take_request(ReqKind::Capture, m.clone(), *b),
            Inst::InstReqandCompare(m, b) => return self.take_request(ReqKind::Compare, m.clone(), *b),
            _ => {},
        }
        self.cursor = self.cursor + 1;
        match i {
            Inst::InstPush(v) => {
                self.push_top(v);
                Action::Next
            },
            Inst::InstLoad(n) => {
                if self.stack.len() > 0 {
                    let top = self.stack[self.stack.len() - 1].clone();
                    self.set_var(n, top);
                }
                Action::Next
            },
            Inst::InstGain(n) => {
                match self.find_var(&n) {
                    Some(k) => {
                        let v = self.var[k].1.clone();
                        self.push_top(v);
                    },
                    None => {},
                }
                Action::Next
            },
            Inst::InstPlus => {
                if self.stack.len() > 1 {
                    let top = self.pop_top();
                    let second = self.pop_top();
                    self.push_top(second.concat(top.as_str()));
                }
                Action::Next
            },
            Inst::InstPrint => {
                if !self.quiet && self.stack.len() > 0 {
                    Action::Print(self.pop_top())
                } else {
                    Action::Next
                }
            },
            _ => Action::Next,
        }
    }

    /// Takes the operands of a request off the stack and hands the call out,
    /// or counts a failure where the stack holds too few.
    fn take_request(&mut self, kind: ReqKind, method: String, has_body: bool) -> (a: Action)
        requires
            old(self).wf(),
            old(self).cursor < old(self).prg.len(),
            old(self).pending is None,
        ensures
            final(self).wf(),
            final(self).prg == old(self).prg,
            final(self).cursor == old(self).cursor + 1,
            final(self).ok == old(self).ok,
            final(self).vars == old(self).vars,
            final(self).modes() == old(self).modes(),
            ({
                let st = old(self).stack_spec();
                let n = (if kind == ReqKind::Compare { 2nat } else { 1nat }) + (if has_body { 1nat } else { 0nat });
                &&& st.len() < n + 1 ==> {
                    &&& final(self).stack_spec() == st
                    &&& final(self).err_spec() == old(self).err_spec() + 1
                    &&& final(self).pending_spec() is None
                    &&& a == Action::Next
                }
                &&& st.len() >= n + 1 ==> {
                    &&& final(self).stack_spec() == st.subrange(0, st.len() - n)
                    &&& final(self).err_spec() == old(self).err_spec()
                    &&& final(self).pending_spec() matches Some((k, m, status, content)) && {
                        &&& k == kind
                        &&& m == method@
                        &&& status == st[st.len() - (if k == ReqKind::Compare { 2int } else { 1int })]
                        &&& k == ReqKind::Compare ==> content == st.last()
                    }
                    &&& a matches Action::Call(m, url, body) && {
                        &&& m@ == method@
                        &&& url@ == st[st.len() - n - 1]
                        &&& (body is Some <==> has_body)
                        &&& body matches Some(b) ==> b@ == st[st.len() - n]
                    }
                }
            }),
    {
        let need: usize = if kind == ReqKind::Compare { 3 } else { 2 };
        let need: usize = if has_body { need + 1 } else { need };
        self.cursor = self.cursor + 1;
        if self.stack.len() < need {
            self.err = self.err + 1;
            return Action::Next;
        }
        let ghost st = self.stack_spec();
        let content = if kind == ReqKind::Compare { self.pop_top() } else { String::new() };
        let status = self.pop_top();
        let body = if has_body { Some(self.pop_top()) } else { None };
        assert(self.stack_spec() =~= st.subrange(0, st.len() - (need - 1)));
        let url = self.stack[self.stack.len() - 1].clone();
        self.pending = Some(Pending { kind: kind, method: method.clone(), status: status, content: content });
        Action::Call(method, url, body)
    }

    /// Takes the outcome of the awaited request: its body and status, or
    /// `None` where it could not be made. Counts the route, takes the url off
    /// the stack, pushes the body for a capture (empty where there was no
    /// response), and returns the failure to report unless in silent mode.
    pub fn complete(&mut self, response: Option<(String, String)>) -> (r: Option<RouteError>)
        requires
            old(self).wf(),
            old(self).pending_spec() is Some,
        ensures
            final(self).wf(),
            final(self).pending_spec() is None,
            final(self).prg_spec() == old(self).prg_spec(),
            final(self).cursor_spec() == old(self).cursor_spec(),
            final(self).vars_spec() == old(self).vars_spec(),
            final(self).modes() == old(self).modes(),
            ({
                let (kind, method, status, content) = old(self).pending_spec().unwrap();
                let st = old(self).stack_spec();
                let failure = route_outcome(kind, status, content, response_view(response));
                &&& failure is None ==> final(self).ok_spec() == old(self).ok_spec() + 1
                    && final(self).err_spec() == old(self).err_spec()
                &&& failure is Some ==> final(self).ok_spec() == old(self).ok_spec()
                    && final(self).err_spec() == old(self).err_spec() + 1
                &&& final(self).stack_spec() == (if kind == ReqKind::Capture {
                    st.drop_last().push(match response_view(response) {
                        Some((b, _)) => b,
                        None => Seq::empty(),
                    })
                } else {
                    st.drop_last()
                })
                &&& r is Some <==> failure is Some && !old(self).modes().0
                &&& r matches Some(e) ==> e.method@ == method && e.url@ == st.last()
                    && Some(e.failure) == failure
            }),
    {
        let p = self.pending.take().unwrap();
        let failure = match response {
            None => Some(Failure::Unreachable),
            Some((ref body, ref code)) => {
                if *code != p.status {
                    Some(Failure::WrongStatus)
                } else if p.kind == ReqKind::Compare && *body != p.content {
                    Some(Failure::WrongContent)
                } else {
                    None
                }
            },
        };
        match failure {
            None => self.ok = self.ok + 1,
            Some(_) => self.err = self.err + 1,
        }
        let url = self.pop_top();
        if p.kind == ReqKind::Capture {
            match response {
                Some((body, _)) => self.push_top(body),
                None => self.push_top(String::new()),
            }
        }
        match failure {
            Some(f) if !self.silent => Some(RouteError { method: p.method, url: url, failure: f }),
            _ => None,
        }
    }
}

} // verus!
