//! The typed command assembled from a tokenized input line.
//!
//! The post-prefix text is matched against the fixed builtin grammar first;
//! when no builtin name matches, the first token becomes an external command
//! name and the rest a lazy argument iterator. Builtin matching takes
//! priority over invocation: an external executable named like a builtin is
//! unreachable through this grammar.

use vstd::prelude::*;

use crate::env::{env_scan, EnvIter};
use crate::parse::{Parse, ParseError};
use crate::token;

verus! {

/// The argument tokens that repeatedly tokenizing `s` yields: any atom, with
/// leading whitespace trimmed before each attempt, until a producer fails.
pub open spec fn args_tokens(s: Seq<char>) -> Seq<Seq<char>>
    decreases s.len(),
{
    let t = s.skip(token::ws_len(s));
    match token::atom_spec(t) {
        Ok((rem, tok)) => {
            if rem.len() < s.len() {
                seq![tok] + args_tokens(rem)
            } else {
                seq![tok]
            }
        },
        Err(_) => Seq::empty(),
    }
}

/// A successful tokenizing step leaves strictly less text, so [`args_tokens`]
/// always takes its shrinking branch.
pub proof fn lemma_args_step(s: Seq<char>)
    ensures
        token::atom_spec(s.skip(token::ws_len(s))) matches Ok(p) ==> {
            &&& p.0.len() < s.len()
            &&& args_tokens(s) =~= seq![p.1] + args_tokens(p.0)
        },
{
    token::lemma_non_ws_len_bounds(s);
    token::lemma_atom_remainder(s.skip(token::ws_len(s)));
}

/// Compares two texts character by character.
fn str_eq(a: &str, b: &str) -> (r: bool)
    ensures
        r == (a@ == b@),
{
    let la = a.unicode_len();
    let lb = b.unicode_len();
    if la != lb {
        return false;
    }
    let mut i: usize = 0;
    while i < la
        invariant
            0 <= i <= la,
            la == a@.len() && la == b@.len(),
            forall|j: int| 0 <= j < i ==> a@[j] == b@[j],
        decreases la - i,
    {
        if a.get_char(i) != b.get_char(i) {
            return false;
        }
        i = i + 1;
    }
    proof {
        assert(a@ =~= b@);
    }
    true
}

/// A lazy, restartable-by-copy cursor over the argument tokens of a text.
#[derive(Clone, Copy, Debug)]
pub struct ArgsIter<'a> {
    text: &'a str,
}

impl<'a> View for ArgsIter<'a> {
    type V = Seq<char>;

    /// The text the cursor has not consumed yet.
    closed spec fn view(&self) -> Seq<char> {
        self.text@
    }
}

impl<'a> ArgsIter<'a> {
    /// Starts a cursor at the front of a text.
    pub fn new(text: &'a str) -> (r: Self)
        ensures
            r@ == text@,
    {
        Self { text }
    }

    /// Tokenizes the next argument, trimming leading whitespace first. Ends
    /// when the window is exhausted or no producer matches.
    pub fn next(&mut self) -> (r: Option<&'a str>)
        ensures
            ({
                let t = old(self)@.skip(token::ws_len(old(self)@));
                match token::atom_spec(t) {
                    Ok((rem, tok)) => {
                        &&& r matches Some(w) && w@ == tok
                        &&& final(self)@ == rem
                        &&& final(self)@.len() < old(self)@.len()
                    },
                    Err(_) => r is None && *final(self) == *old(self),
                }
            }),
    {
        proof {
            lemma_args_step(self@);
        }
        match token::trim_start(token::atom, self.text) {
            Ok((rem, tok)) => {
                self.text = rem;
                Some(tok)
            },
            Err(_) => None,
        }
    }

    /// The number of remaining argument tokens, consuming the cursor.
    pub fn count(self) -> (r: usize)
        ensures
            r == args_tokens(self@).len(),
    {
        let ghost orig = self@;
        let len0 = self.text.unicode_len();
        let mut it = self;
        let mut n: usize = 0;
        loop
            invariant
                orig == self@,
                len0 == orig.len(),
                n + args_tokens(it@).len() == args_tokens(orig).len(),
                it@.len() + n <= orig.len(),
            decreases it@.len(),
        {
            proof {
                lemma_args_step(it@);
            }
            match it.next() {
                Some(_) => {
                    n = n + 1;
                },
                None => {
                    return n;
                },
            }
        }
    }

    /// All remaining argument tokens in order, consuming the cursor.
    pub fn collect(self) -> (r: Vec<&'a str>)
        ensures
            r@.len() == args_tokens(self@).len(),
            forall|i: int| 0 <= i < r@.len() ==> r@[i]@ == args_tokens(self@)[i],
    {
        let ghost orig = self@;
        let mut it = self;
        let mut out: Vec<&'a str> = Vec::new();
        loop
            invariant
                orig == self@,
                args_tokens(orig) =~= out@.map(|i: int, w: &'a str| w@) + args_tokens(it@),
            decreases it@.len(),
        {
            proof {
                lemma_args_step(it@);
            }
            let ghost pre = out@;
            match it.next() {
                Some(w) => {
                    out.push(w);
                    proof {
                        assert(out@.map(|i: int, w: &'a str| w@) =~= pre.map(
                            |i: int, w: &'a str| w@,
                        ) + seq![w@]);
                    }
                },
                None => {
                    proof {
                        let m = out@.map(|i: int, w: &'a str| w@);
                        assert(args_tokens(orig) =~= m);
                        assert forall|i: int| 0 <= i < out@.len() implies out@[i]@ == args_tokens(
                            orig,
                        )[i] by {
                            assert(args_tokens(orig)[i] == m[i]);
                        }
                    }
                    return out;
                },
            }
        }
    }
}

/// All shell builtins.
#[derive(Clone, Copy, Debug)]
pub enum Builtin<'a> {
    /// Clear the screen; takes no argument.
    Clear,
    /// Change the working directory to the given path.
    Cd(&'a str),
    /// Leave the shell; takes no argument.
    Exit,
}

/// Failures specific to the `cd` builtin.
#[derive(Clone, Copy, Debug, PartialEq, Eq, Structural)]
pub enum CdError {
    /// `cd` was invoked without a path argument.
    NoPath,
}

impl<'a> Parse<'a> for Builtin<'a> {
    type Error = CdError;

    /// The builtin grammar: `clear` and `exit` stand alone; `cd` requires a
    /// path argument and fails without one; any other first token is not a
    /// builtin, and an empty token stream is no input at all.
    open spec fn post(input: Seq<char>, r: Result<Self, ParseError<CdError>>) -> bool {
        let toks = args_tokens(input);
        if toks.len() == 0 {
            r == Err::<Builtin<'a>, ParseError<CdError>>(ParseError::NoInput)
        } else if toks[0] == "clear"@ {
            r == Ok::<Builtin<'a>, ParseError<CdError>>(Builtin::Clear)
        } else if toks[0] == "cd"@ {
            if toks.len() == 1 {
                r == Err::<Builtin<'a>, ParseError<CdError>>(ParseError::Other(CdError::NoPath))
            } else {
                r matches Ok(Builtin::Cd(p)) && p@ == toks[1]
            }
        } else if toks[0] == "exit"@ {
            r == Ok::<Builtin<'a>, ParseError<CdError>>(Builtin::Exit)
        } else {
            r == Err::<Builtin<'a>, ParseError<CdError>>(ParseError::Unrecognized)
        }
    }

    fn parse_from(text: &'a str) -> (r: Result<Self, ParseError<CdError>>) {
        let mut args = ArgsIter { text };
        proof {
            lemma_args_step(text@);
        }
        match args.next() {
            None => Err(ParseError::NoInput),
            Some(w) => {
                if str_eq(w, "clear") {
                    Ok(Builtin::Clear)
                } else if str_eq(w, "cd") {
                    proof {
                        lemma_args_step(args@);
                    }
                    match args.next() {
                        None => Err(ParseError::Other(CdError::NoPath)),
                        Some(p) => Ok(Builtin::Cd(p)),
                    }
                } else if str_eq(w, "exit") {
                    Ok(Builtin::Exit)
                } else {
                    Err(ParseError::Unrecognized)
                }
            },
        }
    }
}

/// Invocation of an external executable command.
#[derive(Clone, Copy, Debug)]
pub struct Invoke<'a> {
    /// The command to invoke.
    pub command: &'a str,
    /// Zero or more arguments to pass to the command.
    pub args: ArgsIter<'a>,
}

impl<'a> Parse<'a> for Invoke<'a> {
    type Error = CdError;

    /// Any first token becomes the command name; the cursor over the rest of
    /// the text yields exactly the remaining tokens.
    open spec fn post(input: Seq<char>, r: Result<Self, ParseError<CdError>>) -> bool {
        let toks = args_tokens(input);
        if toks.len() == 0 {
            r == Err::<Invoke<'a>, ParseError<CdError>>(ParseError::NoInput)
        } else {
            r matches Ok(inv) && inv.command@ == toks[0] && args_tokens(inv.args@) =~= toks.skip(
                1,
            )
        }
    }

    fn parse_from(text: &'a str) -> (r: Result<Self, ParseError<CdError>>) {
        let mut args = ArgsIter { text };
        proof {
            lemma_args_step(text@);
        }
        match args.next() {
            None => Err(ParseError::NoInput),
            Some(command) => Ok(Invoke { command, args }),
        }
    }
}

/// The display text of a token list: each token preceded by one space.
pub open spec fn spaced(toks: Seq<Seq<char>>) -> Seq<char>
    decreases toks.len(),
{
    if toks.len() == 0 {
        Seq::empty()
    } else {
        seq![' '] + toks[0] + spaced(toks.skip(1))
    }
}

impl<'a> Invoke<'a> {
    /// The invocation as one text: the command, then each argument preceded
    /// by one space.
    pub fn to_text(&self) -> (r: String)
        ensures
            r@ == self.command@ + spaced(args_tokens(self.args@)),
    {
        let mut s = String::new();
        s.append(self.command);
        let mut it = self.args;
        proof {
            assert(s@ =~= self.command@);
        }
        loop
            invariant
                self.command@ + spaced(args_tokens(self.args@)) =~= s@ + spaced(args_tokens(it@)),
            decreases it@.len(),
        {
            proof {
                lemma_args_step(it@);
            }
            let ghost pre = it@;
            let ghost spre = s@;
            match it.next() {
                Some(w) => {
                    s.append(" ");
                    s.append(w);
                    proof {
                        let toks = args_tokens(pre);
                        assert(toks[0] == w@);
                        assert(toks.skip(1) =~= args_tokens(it@));
                        assert(spaced(toks) == seq![' '] + toks[0] + spaced(toks.skip(1)));
                        reveal_strlit(" ");
                        assert(" "@ =~= seq![' ']);
                        assert(spre + spaced(toks) =~= s@ + spaced(args_tokens(it@)));
                    }
                },
                None => {
                    proof {
                        assert(spaced(args_tokens(it@)) =~= Seq::<char>::empty());
                        assert(s@ + spaced(args_tokens(it@)) =~= s@);
                    }
                    return s;
                },
            }
        }
    }
}

/// A parsed command: a recognized builtin, or an external invocation.
#[derive(Clone, Copy, Debug)]
pub enum Cmd<'a> {
    Builtin(Builtin<'a>),
    Invoke(Invoke<'a>),
}

impl<'a> Parse<'a> for Cmd<'a> {
    type Error = CdError;

    /// The input is first matched against the builtin grammar; only when no
    /// builtin name matches does it fall back to an external invocation, so a
    /// builtin name can never become an `Invoke`. A `cd` without its path is
    /// a failure of the matched builtin, not an invocation.
    open spec fn post(input: Seq<char>, r: Result<Self, ParseError<CdError>>) -> bool {
        let toks = args_tokens(input);
        if toks.len() == 0 {
            r == Err::<Cmd<'a>, ParseError<CdError>>(ParseError::NoInput)
        } else if toks[0] == "clear"@ {
            r == Ok::<Cmd<'a>, ParseError<CdError>>(Cmd::Builtin(Builtin::Clear))
        } else if toks[0] == "cd"@ {
            if toks.len() == 1 {
                r == Err::<Cmd<'a>, ParseError<CdError>>(ParseError::Other(CdError::NoPath))
            } else {
                r matches Ok(Cmd::Builtin(Builtin::Cd(p))) && p@ == toks[1]
            }
        } else if toks[0] == "exit"@ {
            r == Ok::<Cmd<'a>, ParseError<CdError>>(Cmd::Builtin(Builtin::Exit))
        } else {
            r matches Ok(Cmd::Invoke(inv)) && inv.command@ == toks[0] && args_tokens(inv.args@)
                =~= toks.skip(1)
        }
    }

    fn parse_from(text: &'a str) -> (r: Result<Self, ParseError<CdError>>) {
        match Builtin::parse_from(text) {
            Ok(b) => Ok(Cmd::Builtin(b)),
            Err(ParseError::Unrecognized) => match Invoke::parse_from(text) {
                Ok(inv) => Ok(Cmd::Invoke(inv)),
                Err(e) => Err(e),
            },
            Err(e) => Err(e),
        }
    }
}

/// Law: builtin matching takes priority over invocation. Whenever the first
/// token of the input is `cd`, the parsed command is never an `Invoke`; when
/// it parses at all, it is the `Cd` builtin.
pub proof fn lemma_cd_priority<'a>(input: Seq<char>, r: Result<Cmd<'a>, ParseError<CdError>>)
    requires
        <Cmd<'a> as Parse<'a>>::post(input, r),
        args_tokens(input).len() > 0,
        args_tokens(input)[0] == "cd"@,
    ensures
        !(r matches Ok(Cmd::Invoke(_))),
        r matches Ok(c) ==> c matches Cmd::Builtin(Builtin::Cd(_)),
{
    reveal_strlit("cd");
    reveal_strlit("clear");
    assert("cd"@.len() == 2);
    assert("clear"@.len() == 5);
    assert("cd"@ != "clear"@);
}

/// Evaluation of a command in an environment.
///
/// This is the full parse of one input line: the leading run of `KEY=VALUE`
/// assignments, then the command assembled from the remaining text.
#[derive(Clone, Copy, Debug)]
pub struct WithEnv<'a> {
    /// The assignments at the front of the line, in order of occurrence.
    pub env: EnvIter<'a>,
    /// The command the rest of the line holds.
    pub cmd: Cmd<'a>,
}

impl<'a> Parse<'a> for WithEnv<'a> {
    type Error = CdError;

    /// The environment iterator covers the whole input; the command is parsed
    /// from whatever the assignment scan leaves unconsumed, and its failures
    /// are this parse's failures.
    open spec fn post(input: Seq<char>, r: Result<Self, ParseError<CdError>>) -> bool {
        match r {
            Ok(we) => we.env@ == input && <Cmd<'a> as Parse<'a>>::post(
                env_scan(input).1,
                Ok(we.cmd),
            ),
            Err(e) => <Cmd<'a> as Parse<'a>>::post(env_scan(input).1, Err(e)),
        }
    }

    fn parse_from(text: &'a str) -> (r: Result<Self, ParseError<CdError>>) {
        let env = EnvIter::new(text);
        let mut ei = env;
        loop
            invariant
                env@ == text@,
                env_scan(text@).1 == env_scan(ei@).1,
            decreases ei@.len(),
        {
            proof {
                crate::env::lemma_env_scan_step(ei@);
            }
            match ei.next() {
                Some(_) => {},
                None => {
                    let cmd_str = ei.remainder();
                    return match Cmd::parse_from(cmd_str) {
                        Ok(cmd) => Ok(WithEnv { env, cmd }),
                        Err(e) => Err(e),
                    };
                },
            }
        }
    }
}

} // verus!
