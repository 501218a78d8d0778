use vstd::prelude::*;

verus! {

/// Where a diagnostic points: a file, a line and a column, the last two zero
/// where no position applies.
#[derive(Debug)]
pub struct Location {
    pub file_name: String,
    pub lineno: usize,
    pub colno: usize,
}

/// A message at a location.
#[derive(Debug)]
pub struct Diagnostic {
    pub location: Location,
    pub message: String,
}

/// A diagnostic as plain values: file name, line, column, message.
pub type DiagnosticView = (Seq<char>, usize, usize, Seq<char>);

pub open spec fn diagnostic_view(d: Diagnostic) -> DiagnosticView {
    (d.location.file_name@, d.location.lineno, d.location.colno, d.message@)
}

/// A collection of diagnostics, in the order they were raised.
#[derive(Debug)]
pub struct Errors {
    pub diagnostics: Vec<Diagnostic>,
}

impl Errors {
    pub open spec fn view(&self) -> Seq<DiagnosticView> {
        self.diagnostics@.map_values(|d: Diagnostic| diagnostic_view(d))
    }

    /// No diagnostics.
    pub fn none() -> (r: Errors)
        ensures
            r@ == Seq::<DiagnosticView>::empty(),
    {
        let r = Errors { diagnostics: Vec::new() };
        assert(r@ =~= Seq::<DiagnosticView>::empty());
        r
    }

    /// A single diagnostic.
    pub fn one(location: Location, message: String) -> (r: Errors)
        ensures
            r@ == seq![(location.file_name@, location.lineno, location.colno, message@)],
    {
        let mut r = Errors::none();
        r.append_one(location, message);
        r
    }

    /// Adds a diagnostic at the end.
    pub fn append_one(&mut self, location: Location, message: String)
        ensures
            final(self)@ == old(self)@.push(
                (location.file_name@, location.lineno, location.colno, message@),
            ),
    {
        self.diagnostics.push(Diagnostic { location, message });
        assert(self@ =~= old(self)@.push(
            (location.file_name@, location.lineno, location.colno, message@),
        ));
    }

    pub fn is_empty(&self) -> (r: bool)
        ensures
            r == (self@.len() == 0),
    {
        self.diagnostics.len() == 0
    }

    pub fn len(&self) -> (r: usize)
        ensures
            r == self@.len(),
    {
        self.diagnostics.len()
    }
}

} // verus!
