use vstd::prelude::*;

verus! {

/// An error tied to a source line (counted from 0) and that line's text.
#[derive(Debug)]
pub struct LinedError {
    pub line: usize,
    pub related_text: String,
    pub content: String,
}

impl LinedError {
    pub fn new(line: usize, related_text: String, content: String) -> (r: LinedError)
        ensures
            r.line == line,
            r.related_text@ == related_text@,
            r.content@ == content@,
    {
        LinedError { line, related_text, content }
    }
}

/// A value read from a sequence, and how many elements it took.
#[derive(Debug)]
pub struct SuccessStep<T> {
    pub val: T,
    pub change: usize,
}

impl<T> SuccessStep<T> {
    pub fn new(val: T, change: usize) -> (r: SuccessStep<T>)
        ensures
            r.val == val,
            r.change == change,
    {
        SuccessStep { val, change }
    }

    /// Moves the position `i` past what the step took, and hands out its value.
    pub fn apply(self, i: &mut usize) -> (r: T)
        requires
            *old(i) + self.change <= usize::MAX,
        ensures
            *final(i) == *old(i) + self.change,
            r == self.val,
    {
        *i = *i + self.change;
        self.val
    }
}

pub struct StepH;

impl StepH {
    /// Nothing more to read.
    pub fn end<T, E>() -> (r: Result<Option<SuccessStep<T>>, E>)
        ensures
            r matches Ok(None),
    {
        Ok(None)
    }

    pub fn deliver<T, E>(val: T, after: usize) -> (r: Result<Option<SuccessStep<T>>, E>)
        ensures
            r matches Ok(Some(s)) && s.val == val && s.change == after,
    {
        Ok(Some(SuccessStep::new(val, after)))
    }
}

pub struct SingleStepH;

impl SingleStepH {
    pub fn deliver<T, E>(val: T, after: usize) -> (r: Result<SuccessStep<T>, E>)
        ensures
            r matches Ok(s) && s.val == val && s.change == after,
    {
        Ok(SuccessStep::new(val, after))
    }
}

} // verus!
