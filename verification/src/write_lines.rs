//! Writing a list of values one per line.
use vstd::prelude::*;
use crate::text::Textual;

verus! {

/// The text forms of `items`, each followed by a line feed.
pub open spec fn lines_text<T: Textual>(items: Seq<T>) -> Seq<char>
    decreases items.len(),
{
    if items.len() == 0 {
        Seq::empty()
    } else {
        lines_text(items.drop_last()) + items.last().text() + seq!['\n']
    }
}

/// A list of values that is written one value per line.
pub struct WriteLinesIter<T: Textual> {
    iter: Vec<T>,
}

impl<T: Textual> WriteLinesIter<T> {
    /// The values to be written.
    pub closed spec fn items(&self) -> Seq<T> {
        self.iter@
    }

    /// The value that holds the list `iter`.
    pub closed spec fn of(iter: Vec<T>) -> Self {
        WriteLinesIter { iter }
    }

    /// Wraps a list of values for writing.
    pub fn new(iter: Vec<T>) -> (r: Self)
        ensures
            r == Self::of(iter),
            r.items() == iter@,
    {
        WriteLinesIter { iter: iter }
    }
}

impl<T: Textual> From<Vec<T>> for WriteLinesIter<T> {
    fn from(f: Vec<T>) -> (r: Self) {
        WriteLinesIter::<T>::new(f)
    }
}

impl<T: Textual> vstd::std_specs::convert::FromSpecImpl<Vec<T>> for WriteLinesIter<T> {
    open spec fn obeys_from_spec() -> bool {
        true
    }

    /// The list that is to be written one value per line.
    open spec fn from_spec(f: Vec<T>) -> Self {
        Self::of(f)
    }
}

impl<T: Textual> Textual for WriteLinesIter<T> {
    open spec fn text(&self) -> Seq<char> {
        lines_text(self.items())
    }

    fn to_string(&self) -> (r: String) {
        let mut out = String::new();
        let mut i: usize = 0;
        assert(self.iter@.take(0) =~= Seq::<T>::empty());
        while i < self.iter.len()
            invariant
                i <= self.iter@.len(),
                out@ == lines_text(self.iter@.take(i as int)),
            decreases self.iter@.len() - i,
        {
            let line = self.iter[i].to_string();
            out.push_str(line.as_str());
            out.push('\n');
            assert(self.iter@.take(i + 1).drop_last() =~= self.iter@.take(i as int));
            i += 1;
        }
        assert(self.iter@.take(self.iter@.len() as int) =~= self.iter@);
        out
    }
}

} // verus!
