//! A cursor over the characters of a source string, shared by the two
//! parsers: peeking, prefix tests, and consuming runs of characters.

use vstd::prelude::*;

verus! {

use crate::text::{chars_of, is_space, is_space_char, push_char, lemma_space_run_is, lemma_until_run_is, space_run, until_run};

/// A read position inside a fixed sequence of characters.
pub struct Source {
    pub source: Vec<char>,
    pub pos: usize,
}

impl Source {
    /// The position never passes the end of the text.
    pub open spec fn wf(self) -> bool {
        self.pos <= self.source@.len() && self.source@.len() <= usize::MAX
    }

    pub open spec fn spec_eof(self) -> bool {
        self.pos >= self.source@.len()
    }

    /// The characters not yet consumed.
    pub open spec fn remaining(self) -> Seq<char> {
        self.source@.subrange(self.pos as int, self.source@.len() as int)
    }

    pub fn new(source: String) -> (r: Source)
        ensures
            r.source@ == source@,
            r.pos == 0,
            r.wf(),
    {
        Source { source: chars_of(source.as_str()), pos: 0 }
    }

    /// The next character, left in place.
    pub fn peek(&self) -> (c: char)
        requires
            self.wf(),
            !self.spec_eof(),
        ensures
            c == self.source@[self.pos as int],
    {
        self.source[self.pos]
    }

    /// Whether the text that remains begins with the given string.
    pub fn starts_with(&self, s: &str) -> (r: bool)
        requires
            self.wf(),
        ensures
            r == (self.pos + s@.len() <= self.source@.len()
                && self.source@.subrange(self.pos as int, self.pos + s@.len() as int) == s@),
    {
        let n = vstd::string::StrSliceExecFns::unicode_len(s);
        if n > self.source.len() - self.pos {
            return false;
        }
        let mut i: usize = 0;
        while i < n
            invariant
                self.wf(),
                n == s@.len(),
                self.pos + n <= self.source@.len(),
                i <= n,
                forall|j: int| 0 <= j < i ==> self.source@[self.pos + j] == s@[j],
            decreases n - i,
        {
            let c = vstd::string::StrSliceExecFns::get_char(s, i);
            if self.source[self.pos + i] != c {
                return false;
            }
            i = i + 1;
        }
        proof {
            assert(self.source@.subrange(self.pos as int, self.pos + s@.len() as int) =~= s@);
        }
        true
    }

    pub fn eof(&self) -> (r: bool)
        ensures
            r == self.spec_eof(),
    {
        self.pos >= self.source.len()
    }

    /// Takes the next character and moves past it.
    pub fn consume_char(&mut self) -> (c: char)
        requires
            old(self).wf(),
            !old(self).spec_eof(),
        ensures
            final(self).wf(),
            final(self).source@ == old(self).source@,
            final(self).pos == old(self).pos + 1,
            c == old(self).source@[old(self).pos as int],
    {
        let c = self.source[self.pos];
        self.pos = self.pos + 1;
        c
    }

    /// Takes the longest run of characters for which `test` holds, from the
    /// current position, and moves past it.
    pub fn consume_while<F: Fn(char) -> bool>(&mut self, test: F) -> (r: String)
        requires
            old(self).wf(),
            forall|c: char| #[trigger] test.requires((c,)),
        ensures
            final(self).wf(),
            final(self).source@ == old(self).source@,
            old(self).pos <= final(self).pos,
            r@ == old(self).source@.subrange(old(self).pos as int, final(self).pos as int),
            forall|i: int|
                old(self).pos <= i < final(self).pos ==> test.ensures(
                    (old(self).source@[i],),
                    true,
                ),
            !final(self).spec_eof() ==> test.ensures(
                (final(self).source@[final(self).pos as int],),
                false,
            ),
    {
        let mut r = String::new();
        loop
            invariant
                self.wf(),
                self.source@ == old(self).source@,
                old(self).pos <= self.pos,
                forall|c: char| #[trigger] test.requires((c,)),
                r@ == old(self).source@.subrange(old(self).pos as int, self.pos as int),
                forall|i: int|
                    old(self).pos <= i < self.pos ==> test.ensures((old(self).source@[i],), true),
            ensures
                self.wf(),
                self.source@ == old(self).source@,
                old(self).pos <= self.pos,
                r@ == old(self).source@.subrange(old(self).pos as int, self.pos as int),
                forall|i: int|
                    old(self).pos <= i < self.pos ==> test.ensures((old(self).source@[i],), true),
                !self.spec_eof() ==> test.ensures((self.source@[self.pos as int],), false),
            decreases self.source@.len() - self.pos,
        {
            if self.pos >= self.source.len() {
                break;
            }
            let c = self.source[self.pos];
            let keep = test(c);
            if !keep {
                break;
            }
            push_char(&mut r, c);
            self.pos = self.pos + 1;
            proof {
                assert(r@ =~= old(self).source@.subrange(old(self).pos as int, self.pos as int));
            }
        }
        r
    }

    /// Takes every character up to, and not including, the first `stop`
    /// character (or the end of the text), and moves past them.
    pub fn consume_until(&mut self, stop: char) -> (r: String)
        requires
            old(self).wf(),
        ensures
            final(self).wf(),
            final(self).source@ == old(self).source@,
            old(self).pos <= final(self).pos,
            r@ == old(self).source@.subrange(old(self).pos as int, final(self).pos as int),
            forall|i: int|
                old(self).pos <= i < final(self).pos ==> old(self).source@[i] != stop,
            !final(self).spec_eof() ==> final(self).source@[final(self).pos as int] == stop,
            final(self).pos == old(self).pos + until_run(
                old(self).source@,
                old(self).pos as int,
                stop,
            ),
    {
        let mut r = String::new();
        loop
            invariant
                self.wf(),
                self.source@ == old(self).source@,
                old(self).pos <= self.pos,
                r@ == old(self).source@.subrange(old(self).pos as int, self.pos as int),
                forall|i: int| old(self).pos <= i < self.pos ==> old(self).source@[i] != stop,
            ensures
                self.wf(),
                self.source@ == old(self).source@,
                old(self).pos <= self.pos,
                r@ == old(self).source@.subrange(old(self).pos as int, self.pos as int),
                forall|i: int| old(self).pos <= i < self.pos ==> old(self).source@[i] != stop,
                !self.spec_eof() ==> self.source@[self.pos as int] == stop,
            decreases self.source@.len() - self.pos,
        {
            if self.pos >= self.source.len() {
                break;
            }
            let c = self.source[self.pos];
            if c == stop {
                break;
            }
            push_char(&mut r, c);
            self.pos = self.pos + 1;
            proof {
                assert(r@ =~= old(self).source@.subrange(old(self).pos as int, self.pos as int));
            }
        }
        proof {
            lemma_until_run_is(self.source@, old(self).pos as int, self.pos as int, stop);
        }
        r
    }

    /// Moves past any run of whitespace at the current position.
    pub fn consume_whitespace(&mut self)
        requires
            old(self).wf(),
        ensures
            final(self).wf(),
            final(self).source@ == old(self).source@,
            old(self).pos <= final(self).pos,
            forall|i: int|
                old(self).pos <= i < final(self).pos ==> is_space(#[trigger] old(self).source@[i]),
            !final(self).spec_eof() ==> !is_space(final(self).source@[final(self).pos as int]),
            final(self).pos == old(self).pos + space_run(old(self).source@, old(self).pos as int),
    {
        let _ = self.consume_while(is_space_char);
        proof {
            assert(forall|i: int|
                old(self).pos <= i < self.pos ==> is_space(#[trigger] old(self).source@[i]));
            if !self.spec_eof() {
                assert(!is_space(self.source@[self.pos as int]));
            }
            lemma_space_run_is(self.source@, old(self).pos as int, self.pos as int);
        }
    }
}

} // verus!
