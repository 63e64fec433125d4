//! Dropping one trailing character from a stream of characters.
use vstd::prelude::*;
use vstd::std_specs::iter::IteratorSpec;

verus! {

/// `chars` without its last character, if that is `needle`; else `chars`.
pub open spec fn trim_one(chars: Seq<char>, needle: char) -> Seq<char> {
    if chars.len() > 0 && chars.last() == needle {
        chars.drop_last()
    } else {
        chars
    }
}

/// The character that is held back, as a sequence of none or one.
pub open spec fn held(buffer: Option<char>) -> Seq<char> {
    match buffer {
        Some(c) => seq![c],
        None => Seq::empty(),
    }
}

/// Removes 1 character from the end of an iterator if it matches needle.
///
/// It hands on the characters of `iter` one step late wherever the next one
/// might be the last: a `needle` is held in `buffer` until another character
/// comes after it.
pub struct RTrimIterator<I> {
    pub iter: I,
    pub needle: char,
    pub buffer: Option<char>,
}

impl<I: Iterator<Item = char>> RTrimIterator<I> {
    /// An iterator over the characters of `iter`, less one trailing `needle`.
    pub fn new(iter: I, needle: char) -> (r: RTrimIterator<I>)
        ensures
            r.iter == iter,
            r.needle == needle,
            r.buffer is None,
    {
        RTrimIterator { iter, needle, buffer: None }
    }

    /// The next character, or `None` when only a trailing `needle` is left,
    /// or nothing.
    ///
    /// Of an iterator that keeps the laws of iterators this holds: what is
    /// still to come, before and after the call, is the character held back
    /// and then the rest of `iter`, less one trailing `needle`; the call
    /// hands out the first of it and leaves the others.
    pub fn next(&mut self) -> (ret: Option<char>)
        ensures
            final(self).iter.obeys_prophetic_iter_laws() == old(
                self,
            ).iter.obeys_prophetic_iter_laws(),
            final(self).needle == old(self).needle,
            old(self).iter.obeys_prophetic_iter_laws() ==> ({
                let before = trim_one(
                    held(old(self).buffer) + old(self).iter.remaining(),
                    old(self).needle,
                );
                let after = trim_one(
                    held(final(self).buffer) + final(self).iter.remaining(),
                    final(self).needle,
                );
                if before.len() > 0 {
                    ret == Some(before[0]) && after == before.drop_first()
                } else {
                    ret is None && after.len() == 0
                }
            }),
    {
        let first = self.iter.next();
        match (self.buffer, first) {
            (None, None) => None,
            (None, Some(chr)) => {
                if chr == self.needle {
                    // This may be the last character: look one ahead.
                    match self.iter.next() {
                        None => {
                            self.buffer = Some(chr);
                            None
                        },
                        Some(following) => {
                            self.buffer = Some(following);
                            Some(chr)
                        },
                    }
                } else {
                    Some(chr)
                }
            },
            (Some(buf), None) => {
                if buf == self.needle {
                    // The trailing needle stays in the buffer for good.
                    None
                } else {
                    self.buffer = None;
                    Some(buf)
                }
            },
            (Some(buf), Some(chr)) => {
                self.buffer = Some(chr);
                Some(buf)
            },
        }
    }

    /// All the characters still to come, as a string.
    pub fn collect(self) -> (r: String)
        requires
            self.iter.obeys_prophetic_iter_laws(),
            self.iter.decrease() is Some,
        ensures
            r@ == trim_one(held(self.buffer) + self.iter.remaining(), self.needle),
    {
        let needle = self.needle;
        let mut iter = self.iter;
        let mut pending = self.buffer;
        let mut out = String::new();
        let ghost all = held(self.buffer) + self.iter.remaining();
        assert(out@ + all =~= all);
        loop
            invariant
                iter.obeys_prophetic_iter_laws(),
                iter.decrease() is Some,
                all == out@ + held(pending) + iter.remaining(),
                pending is None ==> out@.len() == 0,
            ensures
                all == out@ + held(pending),
                pending is None ==> out@.len() == 0,
            decreases iter.decrease()->0,
        {
            let ghost rest = iter.remaining();
            match iter.next() {
                None => {
                    assert(out@ + held(pending) + rest =~= out@ + held(pending));
                    break ;
                },
                Some(c) => {
                    proof {
                        assert(rest =~= seq![c] + rest.drop_first());
                    }
                    match pending {
                        Some(p) => {
                            proof {
                                assert(out@ + held(pending) + rest =~= out@.push(p) + held(Some(c))
                                    + rest.drop_first());
                            }
                            out.push(p);
                        },
                        None => {
                            proof {
                                assert(out@ + held(pending) + rest =~= out@ + held(Some(c))
                                    + rest.drop_first());
                            }
                        },
                    }
                    pending = Some(c);
                },
            }
        }
        match pending {
            Some(p) => {
                if p != needle {
                    assert(out@ + held(pending) =~= out@.push(p));
                    out.push(p);
                } else {
                    assert((out@ + held(pending)).drop_last() =~= out@);
                }
            },
            None => {
                assert(out@ + held(pending) =~= out@);
            },
        }
        out
    }
}

} // verus!
