//! Splitting source text into lines.
use vstd::prelude::*;

use crate::text::{lines_of, split_lines, to_chars, to_string, views};

verus! {

/// A source line retained with its own text. Keeping tokenization light
/// makes block parsing predictable and leaves room for a streaming tokenizer.
#[derive(Debug)]
pub struct Line {
    pub text: String,
}

impl Clone for Line {
    fn clone(&self) -> (r: Self)
        ensures
            r.text@ == self.text@,
    {
        Line { text: self.text.clone() }
    }
}

/// The texts of a sequence of lines.
pub open spec fn line_texts(lines: Seq<Line>) -> Seq<Seq<char>> {
    Seq::new(lines.len(), |i: int| lines[i].text@)
}

/// Splits the source into its lines, as `str::lines` does.
pub fn tokenize(source: &str) -> (lines: Vec<Line>)
    ensures
        line_texts(lines@) == split_lines(source@),
{
    let chars = to_chars(source);
    let pieces = lines_of(&chars);
    let mut lines: Vec<Line> = Vec::new();
    let mut i: usize = 0;
    while i < pieces.len()
        invariant
            i <= pieces.len(),
            views(pieces@) == split_lines(source@),
            lines@.len() == i,
            forall|j: int| 0 <= j < i ==> #[trigger] lines@[j].text@ == pieces@[j]@,
        decreases pieces.len() - i,
    {
        let text = to_string(&pieces[i]);
        lines.push(Line { text });
        i += 1;
    }
    assert(line_texts(lines@) =~= views(pieces@));
    lines
}

} // verus!
