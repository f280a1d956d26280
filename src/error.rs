//! Errors with a word on where they arose.
use vstd::prelude::*;
use crate::text::string_from_chars;

verus! {

/// An error and what was being done when it arose.
#[derive(Clone, Debug)]
pub struct ErrorWithContext {
    context: String,
    cause: String,
}

fn push_chars(out: &mut Vec<char>, s: &str)
    ensures
        final(out)@ == old(out)@ + s@,
{
    let ghost start = out@;
    let n = s.unicode_len();
    let mut i: usize = 0;
    while i < n
        invariant
            n == s@.len(),
            i <= n,
            out@ == start + s@.take(i as int),
        decreases n - i,
    {
        out.push(s.get_char(i));
        assert(out@ =~= start + s@.take(i + 1));
        i = i + 1;
    }
    assert(s@.take(n as int) =~= s@);
}

impl ErrorWithContext {
    pub closed spec fn spec_context(&self) -> Seq<char> {
        self.context@
    }

    pub closed spec fn spec_cause(&self) -> Seq<char> {
        self.cause@
    }

    /// The error `cause`, which arose while doing `context`.
    pub fn wrap(context: &str, cause: &str) -> (r: ErrorWithContext)
        ensures
            r.spec_context() == context@,
            r.spec_cause() == cause@,
    {
        ErrorWithContext { context: context.to_owned(), cause: cause.to_owned() }
    }

    pub fn context(&self) -> (r: &str)
        ensures
            r@ == self.spec_context(),
    {
        self.context.as_str()
    }

    pub fn cause(&self) -> (r: &str)
        ensures
            r@ == self.spec_cause(),
    {
        self.cause.as_str()
    }

    /// The error as reported: the context, a colon, and the cause.
    pub fn message(&self) -> (r: String)
        ensures
            r@ == self.spec_context() + seq![':', ' '] + self.spec_cause(),
    {
        let mut out: Vec<char> = Vec::new();
        push_chars(&mut out, self.context.as_str());
        out.push(':');
        out.push(' ');
        push_chars(&mut out, self.cause.as_str());
        assert(out@ =~= self.spec_context() + seq![':', ' '] + self.spec_cause());
        string_from_chars(&out)
    }
}

} // verus!
