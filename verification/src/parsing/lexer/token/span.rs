//! Byte-offset ranges into the input text.
use crate::model::SpanModel;
use vstd::prelude::*;

verus! {

/// A half-open `(start, length)` range of positions in the original input.
#[derive(PartialEq, Eq, Debug, Copy, Clone, Structural)]
pub struct Span {
    start: usize,
    length: usize,
}

impl View for Span {
    type V = SpanModel;

    closed spec fn view(&self) -> SpanModel {
        SpanModel { start: self.start as int, len: self.length as int }
    }
}

impl DeepView for Span {
    type V = SpanModel;

    open spec fn deep_view(&self) -> SpanModel {
        self.view()
    }
}

/// A span's model never has a negative start or length: both come from
/// machine words.
pub broadcast proof fn lemma_span_model_nonneg(s: Span)
    ensures
        0 <= (#[trigger] s@).start,
        0 <= s@.len,
{
}

impl Span {
    pub fn new(start: usize, length: usize) -> (s: Self)
        ensures
            s@ == (SpanModel { start: start as int, len: length as int }),
    {
        Self { start, length }
    }

    pub fn start(&self) -> (r: usize)
        ensures
            r == self@.start,
    {
        self.start
    }

    pub fn length(&self) -> (r: usize)
        ensures
            r == self@.len,
    {
        self.length
    }

    pub fn end(&self) -> (r: usize)
        requires
            self@.start + self@.len <= usize::MAX,
        ensures
            r == self@.start + self@.len,
    {
        self.start + self.length
    }

    pub fn add_to_length(&mut self, num: usize)
        requires
            old(self)@.len + num <= usize::MAX,
        ensures
            final(self)@ == (SpanModel { start: old(self)@.start, len: old(self)@.len + num }),
    {
        self.length = self.length + num;
    }

    pub fn set_start(&mut self, num: usize)
        ensures
            final(self)@ == (SpanModel { start: num as int, len: old(self)@.len }),
    {
        self.start = num;
    }
}

} // verus!
