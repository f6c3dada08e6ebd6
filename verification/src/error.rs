//! Chained error values: a message plus an optional boxed source, with the
//! whole chain modelled as the sequence of messages.

use vstd::prelude::*;

verus! {

/// An error with a message and an optional deeper source.
pub struct Error {
    pub(crate) message: String,
    pub(crate) source: Option<Box<Error>>,
}

/// The chain of errors starting at `e`: itself, then its sources.
pub open(crate) spec fn err_chain(e: Error) -> Seq<Error>
    decreases e,
{
    match e.source {
        None => seq![e],
        Some(s) => seq![e] + err_chain(*s),
    }
}

impl Error {
    /// The error's own message.
    pub open(crate) spec fn spec_message(&self) -> Seq<char> {
        self.message@
    }

    /// The error's source, if any.
    pub open(crate) spec fn spec_source(&self) -> Option<Error> {
        match self.source {
            None => None,
            Some(s) => Some(*s),
        }
    }

    /// An error with the supplied message and no source.
    pub fn new(error: String) -> (r: Self)
        ensures
            r.spec_message() == error@,
            r.spec_source() is None,
            err_chain(r) =~= seq![r],
    {
        Error { message: error, source: None }
    }

    /// An error built from another error's rendered message.
    pub fn new_box(error: String) -> (r: Self)
        ensures
            r.spec_message() == error@,
            r.spec_source() is None,
            err_chain(r) =~= seq![r],
    {
        Error { message: error, source: None }
    }

    /// An error with the supplied message above the given source.
    pub fn with_source(error: String, source: Error) -> (r: Self)
        ensures
            r.spec_message() == error@,
            r.spec_source() == Some(source),
            err_chain(r) == seq![r] + err_chain(source),
    {
        Error { message: error, source: Some(Box::new(source)) }
    }

    /// Wrap this error under a new message.
    pub fn context(self, message: String) -> (r: Self)
        ensures
            r.spec_message() == message@,
            r.spec_source() == Some(self),
            err_chain(r) == seq![r] + err_chain(self),
    {
        Error { message, source: Some(Box::new(self)) }
    }

    /// The error's message.
    pub fn message(&self) -> (r: &str)
        ensures
            r@ == self.spec_message(),
    {
        self.message.as_str()
    }

    /// The error's source, if any.
    pub fn source(&self) -> (r: Option<&Error>)
        ensures
            (r is Some) == (self.spec_source() is Some),
            r matches Some(s) ==> self.spec_source() == Some(*s),
    {
        match &self.source {
            None => None,
            Some(s) => Some(&**s),
        }
    }

    /// A cursor over the chain of errors starting at `self`.
    pub fn sources(&self) -> (r: Source<'_>)
        ensures
            r.remaining() == err_chain(*self),
    {
        Source::new(self)
    }

    /// The deepest error of the chain.
    fn deepest(&self) -> (r: &Error)
        ensures
            *r == err_chain(*self).last(),
        decreases *self,
    {
        match &self.source {
            None => self,
            Some(s) => {
                let d = s.deepest();
                proof {
                    assert(err_chain(*self).last() == err_chain(**s).last());
                }
                d
            },
        }
    }

    /// The lowest-level source of `self`: the last error of the chain the
    /// cursor of [`sources`](Error::sources) walks.
    pub fn root_source(&self) -> (r: Option<&Error>)
        ensures
            r matches Some(e) ==> *e == err_chain(*self).last(),
            r is Some,
    {
        Some(self.deepest())
    }
}

/// A cursor over a chain of errors.
pub struct Source<'a> {
    pub(crate) next: Option<&'a Error>,
}

impl<'a> Source<'a> {
    /// The errors the cursor has yet to hand out.
    pub open(crate) spec fn remaining(&self) -> Seq<Error> {
        match self.next {
            None => Seq::empty(),
            Some(e) => err_chain(*e),
        }
    }

    /// A cursor starting at `error`.
    pub fn new(error: &'a Error) -> (r: Self)
        ensures
            r.remaining() == err_chain(*error),
    {
        Source { next: Some(error) }
    }

    /// Hand out the next error of the chain, deepest last.
    pub fn next(&mut self) -> (r: Option<&'a Error>)
        ensures
            old(self).remaining().len() == 0 ==> r is None && final(self).remaining()
                == old(self).remaining(),
            old(self).remaining().len() > 0 ==> r == Some(&old(self).remaining()[0])
                && final(self).remaining() == old(self).remaining().skip(1),
    {
        match self.next {
            None => None,
            Some(error) => {
                let nxt = error.source();
                self.next = nxt;
                proof {
                    match &error.source {
                        None => {
                            assert(final(self).remaining() =~= old(self).remaining().skip(1));
                        },
                        Some(s) => {
                            assert(final(self).remaining() =~= old(self).remaining().skip(1));
                        },
                    }
                }
                Some(error)
            },
        }
    }
}

/// What can go wrong while starting the serving loop around the tree.
#[derive(Debug)]
pub enum StartError {
    /// An I/O failure while binding or accepting.
    IoError(std::io::Error),
}

/// The error type of std's I/O operations.
///
/// Relies on `std::io::Error`: carried through unread.
#[verifier::external_type_specification]
#[verifier::external_body]
pub struct ExIoError(std::io::Error);

} // verus!
