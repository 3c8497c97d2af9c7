use vstd::prelude::*;

verus! {

/// A (line, column) pair: the line is 1-based, the column counts bytes.
pub type Pos = (usize, usize);

/// Ordering of positions: first by line, then by column.
pub open spec fn pos_le(a: Pos, b: Pos) -> bool {
    a.0 < b.0 || (a.0 == b.0 && a.1 <= b.1)
}

/// A half-open range of positions; `end` follows the last consumed byte.
#[derive(PartialEq, Clone, Copy, Debug)]
pub struct Loc {
    pub start: Pos,
    pub end: Pos,
}

impl Loc {
    /// The range is not reversed and starts on a real line.
    pub open spec fn well_ordered(self) -> bool {
        pos_le(self.start, self.end) && self.start.0 >= 1
    }
}

/// A diagnostic: a fatal error or an advisory warning.
#[derive(PartialEq, Debug)]
pub enum Error {
    ErrorWrongPath,
    ErrorReadFile,
    ErrorReadline(usize),
    ErrorEmptyFile,
    ErrorUnclosedString(Pos),
    ErrorExpectedToken(Pos, String),
    ErrorUnxepectedToken(Loc, String, Pos),
    ErrorNullVar(Loc, String),
    ErrorNoParse(Pos, String),
    ErrorWrongExec,
    WarningEscapeSeq(Pos),
    WarningEmptyString(Pos),
}

impl Error {
    /// Warnings never make a run fail; every other kind does.
    pub open spec fn is_warning(self) -> bool {
        self is WarningEscapeSeq || self is WarningEmptyString
    }
}

/// The diagnostics of one script, in the order they were recorded.
#[derive(Debug)]
pub struct ErrorHandler {
    pub file: String,
    pub errors: Vec<Error>,
    pub trigger: bool,
}

impl ErrorHandler {
    /// `trigger` is set exactly when a fatal diagnostic was recorded.
    pub open spec fn wf(self) -> bool {
        self.trigger <==> exists|i: int| 0 <= i < self.errors@.len() && !(#[trigger] self.errors@[i]).is_warning()
    }

    /// What `before` held is still there, in order, for the same file, and
    /// the trigger still tells whether a fatal diagnostic was recorded.
    pub open spec fn extends(self, before: ErrorHandler) -> bool {
        &&& before.errors@.len() <= self.errors@.len()
        &&& forall|i: int| 0 <= i < before.errors@.len() ==> self.errors@[i] == before.errors@[i]
        &&& self.file@ == before.file@
        &&& before.wf() ==> self.wf()
        &&& self.trigger == (before.trigger || exists|k: int| before.errors@.len() <= k < self.errors@.len()
            && !(#[trigger] self.errors@[k]).is_warning())
    }

    /// A sink records `e` last and keeps what it held before.
    pub open spec fn records(self, before: ErrorHandler, e: Error) -> bool {
        &&& self.errors@ == before.errors@.push(e)
        &&& self.file@ == before.file@
    }

    pub fn new(file: String) -> (r: Self)
        ensures
            r.file@ == file@,
            r.errors@.len() == 0,
            !r.trigger,
            r.wf(),
    {
        Self { file: file, errors: Vec::new(), trigger: false }
    }

    /// Records a fatal diagnostic.
    pub fn push(&mut self, e: Error)
        ensures
            final(self).records(*old(self), e),
            final(self).trigger,
            old(self).wf() && !e.is_warning() ==> final(self).wf(),
            !e.is_warning() ==> final(self).extends(*old(self)),
    {
        self.trigger = true;
        self.errors.push(e);
        assert(self.errors@[self.errors@.len() - 1] == e);
    }

    /// Records a diagnostic without setting the trigger.
    pub fn push_warning(&mut self, e: Error)
        ensures
            final(self).records(*old(self), e),
            final(self).trigger == old(self).trigger,
            old(self).wf() && e.is_warning() ==> final(self).wf(),
            e.is_warning() ==> final(self).extends(*old(self)),
    {
        let ghost before = self.errors@;
        self.errors.push(e);
        proof {
            if old(self).wf() && e.is_warning() {
                if self.trigger {
                    let w = choose|i: int| 0 <= i < before.len() && !(#[trigger] before[i]).is_warning();
                    assert(self.errors@[w] == before[w]);
                }
                assert forall|i: int| 0 <= i < self.errors@.len() && !(#[trigger] self.errors@[i]).is_warning()
                    implies self.trigger by {
                    assert(i < before.len());
                    assert(before[i] == self.errors@[i]);
                }
            }
        }
    }
}

} // verus!
