//! The leading run of environment-variable assignments on a command line.
//!
//! Valid assignment text has the structure `[key=value ]* command ...`: the
//! `key=value` pairs must stand at the front of the text as an unbroken
//! prefix. Keys are bare words; there must be no whitespace between the key,
//! the equals sign, and the value. The value may be any single token: a bare
//! word, a single-quoted string, or a double-quoted string.

use vstd::prelude::*;

use crate::token;

verus! {

/// One `KEY=VALUE` assignment, both sides borrowed from the input line.
#[derive(Clone, Copy, Debug, PartialEq, Eq)]
pub struct EnvVar<'a> {
    pub key: &'a str,
    pub value: &'a str,
}

impl<'a> EnvVar<'a> {
    /// Pairs a key with a value.
    pub fn new(key: &'a str, value: &'a str) -> (r: Self)
        ensures
            r.key@ == key@,
            r.value@ == value@,
    {
        Self { key, value }
    }
}

impl<'a> From<(&'a str, &'a str)> for EnvVar<'a> {
    /// Reads the key and the value out of a pair.
    fn from(kv: (&'a str, &'a str)) -> (r: Self) {
        Self { key: kv.0, value: kv.1 }
    }
}

impl<'a> vstd::std_specs::convert::FromSpecImpl<(&'a str, &'a str)> for EnvVar<'a> {
    open spec fn obeys_from_spec() -> bool {
        true
    }

    open spec fn from_spec(kv: (&'a str, &'a str)) -> EnvVar<'a> {
        EnvVar { key: kv.0, value: kv.1 }
    }
}

/// The assignments and final remainder that scanning `s` yields: the
/// key/value producer runs repeatedly, left-trimming before each attempt,
/// until it fails; the failure point is where the command proper begins.
/// The scan is greedy and never backtracks.
pub open spec fn env_scan(s: Seq<char>) -> (Seq<(Seq<char>, Seq<char>)>, Seq<char>)
    decreases s.len(),
{
    let t = s.skip(token::ws_len(s));
    match token::keyval_spec(t) {
        Ok((rem, kv)) => {
            if rem.len() < s.len() {
                let tail = env_scan(rem);
                (seq![kv] + tail.0, tail.1)
            } else {
                (seq![kv], rem)
            }
        },
        Err(_) => (Seq::empty(), s),
    }
}

/// A successful scan step leaves strictly less text, so the recursion in
/// [`env_scan`] always takes its shrinking branch.
pub proof fn lemma_env_scan_step(s: Seq<char>)
    ensures
        token::keyval_spec(s.skip(token::ws_len(s))) matches Ok(p) ==> {
            &&& p.0.len() < s.len()
            &&& env_scan(s).0 =~= seq![p.1] + env_scan(p.0).0
            &&& env_scan(s).1 == env_scan(p.0).1
        },
{
    let t = s.skip(token::ws_len(s));
    token::lemma_non_ws_len_bounds(s);
    token::lemma_keyval_remainder(t);
}

/// Law: the environment-prefix scan is idempotent. Re-running it on its own
/// unconsumed remainder yields no further assignments: once a candidate
/// fails to parse as `key=value`, scanning has stopped for good.
pub proof fn lemma_env_scan_idempotent(s: Seq<char>)
    ensures
        env_scan(env_scan(s).1).0 =~= Seq::<(Seq<char>, Seq<char>)>::empty(),
    decreases s.len(),
{
    let t = s.skip(token::ws_len(s));
    lemma_env_scan_step(s);
    if token::keyval_spec(t) is Ok {
        let rem = token::keyval_spec(t)->Ok_0.0;
        lemma_env_scan_idempotent(rem);
    }
}

/// Borrows a command text and iterates over its leading assignments.
#[derive(Clone, Copy, Debug)]
pub struct EnvIter<'a> {
    text: &'a str,
}

impl<'a> View for EnvIter<'a> {
    type V = Seq<char>;

    /// The text the iterator has not consumed yet.
    closed spec fn view(&self) -> Seq<char> {
        self.text@
    }
}

impl<'a> EnvIter<'a> {
    /// Creates a new assignment iterator from a command text.
    pub fn new(text: &'a str) -> (r: Self)
        ensures
            r@ == text@,
    {
        Self { text }
    }

    /// The text the iterator has not consumed yet.
    pub fn remainder(&self) -> (r: &'a str)
        ensures
            r@ == self@,
    {
        self.text
    }

    /// Seeks the next leading assignment in the text.
    ///
    /// Once the next part of the text is not a `key=value` pair, the scan
    /// ends and the text stays where it is: the grammar does not let
    /// assignments be set after the command proper has begun.
    pub fn next(&mut self) -> (r: Option<EnvVar<'a>>)
        ensures
            ({
                let t = old(self)@.skip(token::ws_len(old(self)@));
                match token::keyval_spec(t) {
                    Ok((rem, kv)) => {
                        &&& r matches Some(ev) && ev.key@ == kv.0 && ev.value@ == kv.1
                        &&& final(self)@ == rem
                        &&& final(self)@.len() < old(self)@.len()
                    },
                    Err(_) => r is None && *final(self) == *old(self),
                }
            }),
    {
        proof {
            lemma_env_scan_step(self@);
        }
        match token::trim_start(token::keyval, self.text) {
            Ok((rem, kv)) => {
                self.text = rem;
                Some(EnvVar::new(kv.0, kv.1))
            },
            Err(_) => None,
        }
    }

    /// The number of leading assignments, consuming the iterator.
    pub fn count(self) -> (r: usize)
        ensures
            r == env_scan(self@).0.len(),
    {
        let ghost orig = self@;
        let len0 = self.text.unicode_len();
        let mut it = self;
        let mut n: usize = 0;
        loop
            invariant
                orig == self@,
                len0 == orig.len(),
                n + env_scan(it@).0.len() == env_scan(orig).0.len(),
                it@.len() + n <= orig.len(),
            decreases it@.len(),
        {
            proof {
                lemma_env_scan_step(it@);
            }
            match it.next() {
                Some(_) => {
                    n = n + 1;
                },
                None => {
                    return n;
                },
            }
        }
    }

    /// All leading assignments in order, consuming the iterator.
    pub fn collect(self) -> (r: Vec<EnvVar<'a>>)
        ensures
            r@.len() == env_scan(self@).0.len(),
            forall|i: int|
                0 <= i < r@.len() ==> r@[i].key@ == env_scan(self@).0[i].0 && r@[i].value@
                    == env_scan(self@).0[i].1,
    {
        let ghost orig = self@;
        let mut it = self;
        let mut out: Vec<EnvVar<'a>> = Vec::new();
        loop
            invariant
                orig == self@,
                env_scan(orig).0 =~= out@.map(|i: int, ev: EnvVar<'a>| (ev.key@, ev.value@))
                    + env_scan(it@).0,
            decreases it@.len(),
        {
            proof {
                lemma_env_scan_step(it@);
            }
            let ghost pre = out@;
            match it.next() {
                Some(ev) => {
                    out.push(ev);
                    proof {
                        assert(out@.map(|i: int, ev: EnvVar<'a>| (ev.key@, ev.value@)) =~= pre.map(
                            |i: int, ev: EnvVar<'a>| (ev.key@, ev.value@),
                        ) + seq![(ev.key@, ev.value@)]);
                    }
                },
                None => {
                    proof {
                        let m = out@.map(|i: int, ev: EnvVar<'a>| (ev.key@, ev.value@));
                        assert(env_scan(orig).0 =~= m);
                        assert forall|i: int|
                            0 <= i < out@.len() implies out@[i].key@ == env_scan(orig).0[i].0
                            && out@[i].value@ == env_scan(orig).0[i].1 by {
                            assert(env_scan(orig).0[i] == m[i]);
                        }
                    }
                    return out;
                },
            }
        }
    }
}

} // verus!
