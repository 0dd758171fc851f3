//! Progress output on a terminal: marks on one line, and messages that start
//! on a line of their own. The methods give the text to write; the caller
//! writes it.
use vstd::prelude::*;
use vstd::string::*;

verus! {

/// Counts the marks written since the last full line.
pub struct Log {
    page: usize,
}

/// A count that goes up by one, and stays at the largest `usize`.
pub open spec fn bumped(n: usize) -> usize {
    if n < usize::MAX {
        (n + 1) as usize
    } else {
        n
    }
}

impl Log {
    pub closed spec fn page(&self) -> usize {
        self.page
    }

    pub fn new() -> (r: Log)
        ensures
            r.page() == 0,
    {
        Log { page: 0 }
    }

    /// One finished round: a dot.
    pub fn tick(&mut self) -> (r: String)
        ensures
            r@ == "."@,
            final(self).page() == bumped(old(self).page()),
    {
        self.page = if self.page < usize::MAX {
            self.page + 1
        } else {
            self.page
        };
        String::from_str(".")
    }

    /// A short note among the marks: `[msg]`.
    pub fn note(&mut self, msg: &str) -> (r: String)
        ensures
            r@ == "["@ + msg@ + "]"@,
            final(self).page() == bumped(old(self).page()),
    {
        self.page = if self.page < usize::MAX {
            self.page + 1
        } else {
            self.page
        };
        let mut s = String::from_str("[");
        s.append(msg);
        s.append("]");
        s
    }

    /// A message: after marks, it starts on a new line.
    pub fn write_fmt(&mut self, text: &str) -> (r: String)
        ensures
            r@ == if old(self).page() > 0 {
                "\n"@ + text@
            } else {
                text@
            },
            final(self).page() == 0,
    {
        if self.page > 0 {
            self.page = 0;
            let mut s = String::from_str("\n");
            s.append(text);
            s
        } else {
            String::from_str(text)
        }
    }

    /// What ends the output: a line break after marks.
    pub fn end(&self) -> (r: String)
        ensures
            r@ == if self.page() > 0 {
                "\n"@
            } else {
                ""@
            },
    {
        if self.page > 0 {
            String::from_str("\n")
        } else {
            String::from_str("")
        }
    }
}

} // verus!
