//! Command lines of launchable applications: the `Exec` line of a package
//! split into shell words, with desktop-entry field codes expanded.

use vstd::prelude::*;

use crate::text::chars_of;

verus! {

/// Names the words that `shlex::split` makes of a string (POSIX shell
/// quoting and escaping), or `None` where the string ends inside a quotation
/// or right after an unescaped backslash.
pub uninterp spec fn shlex_words(input: Seq<char>) -> Option<Seq<Seq<char>>>;

/// The characters of each word, where there are words.
pub open spec fn words_view(words: Option<Vec<String>>) -> Option<Seq<Seq<char>>> {
    match words {
        Some(v) => Some(v.deep_view()),
        None => None,
    }
}

/// `shlex::split`: the shell words of `input`. The contract only ties the
/// result to the input through `shlex_words`; how the words are formed is
/// not stated.
#[verifier::external_body]
fn shlex_split(input: &str) -> (words: Option<Vec<String>>)
    ensures
        words_view(words) == shlex_words(input@),
{
    shlex::split(input)
}

/// A program and its arguments, ready to be spawned.
#[derive(Debug, Clone, PartialEq, Eq)]
pub struct ExecCommand {
    pub program: String,
    pub args: Vec<String>,
}

impl View for ExecCommand {
    type V = (Seq<char>, Seq<Seq<char>>);

    open spec fn view(&self) -> (Seq<char>, Seq<Seq<char>>) {
        (self.program@, self.args.deep_view())
    }
}

/// The desktop-entry field codes for files and URLs: `%f`, `%F`, `%u`, `%U`.
pub open spec fn is_file_code(a: Seq<char>) -> bool {
    a.len() == 2 && a[0] == '%' && (a[1] == 'f' || a[1] == 'F' || a[1] == 'u' || a[1] == 'U')
}

/// The arguments that the words after the program become: a file field code
/// becomes the path (or nothing without one), another field code makes the
/// whole line unusable, and any other word stays as it is.
pub open spec fn command_args(rest: Seq<Seq<char>>, path: Option<Seq<char>>) -> Option<
    Seq<Seq<char>>,
>
    decreases rest.len(),
{
    if rest.len() == 0 {
        Some(seq![])
    } else {
        let a = rest[0];
        let tail = command_args(rest.drop_first(), path);
        if a.len() > 0 && a[0] == '%' {
            if is_file_code(a) {
                match tail {
                    Some(t) => Some(
                        match path {
                            Some(p) => seq![p] + t,
                            None => t,
                        },
                    ),
                    None => None,
                }
            } else {
                None
            }
        } else {
            match tail {
                Some(t) => Some(seq![a] + t),
                None => None,
            }
        }
    }
}

/// The command that shell words make: the first word is the program.
pub open spec fn spec_command(words: Option<Seq<Seq<char>>>, path: Option<Seq<char>>) -> Option<
    (Seq<char>, Seq<Seq<char>>),
> {
    match words {
        None => None,
        Some(w) => if w.len() == 0 {
            None
        } else {
            match command_args(w.drop_first(), path) {
                Some(args) => Some((w[0], args)),
                None => None,
            }
        },
    }
}

pub open spec fn opt_str_view(p: Option<&str>) -> Option<Seq<char>> {
    match p {
        Some(s) => Some(s@),
        None => None,
    }
}

pub open spec fn command_view(c: Option<ExecCommand>) -> Option<(Seq<char>, Seq<Seq<char>>)> {
    match c {
        Some(c) => Some(c@),
        None => None,
    }
}

fn is_file_code_chars(a: &Vec<char>) -> (b: bool)
    ensures
        b == is_file_code(a@),
{
    a.len() == 2 && a[0] == '%' && (a[1] == 'f' || a[1] == 'F' || a[1] == 'u' || a[1] == 'U')
}

proof fn lemma_command_args_prefix(rest: Seq<Seq<char>>, path: Option<Seq<char>>, i: int)
    requires
        0 <= i < rest.len(),
    ensures
        command_args(rest.skip(i), path) == ({
            let a = rest[i];
            let tail = command_args(rest.skip(i + 1), path);
            if a.len() > 0 && a[0] == '%' {
                if is_file_code(a) {
                    match tail {
                        Some(t) => Some(
                            match path {
                                Some(p) => seq![p] + t,
                                None => t,
                            },
                        ),
                        None => None,
                    }
                } else {
                    None
                }
            } else {
                match tail {
                    Some(t) => Some(seq![a] + t),
                    None => None,
                }
            }
        }),
{
    assert(rest.skip(i).drop_first() =~= rest.skip(i + 1));
    assert(rest.skip(i)[0] == rest[i]);
}

/// The command that already split shell words make, with `path_opt` given
/// for file field codes; `None` where there are no words or a word is a
/// field code other than `%f`, `%F`, `%u`, `%U`.
pub fn command_from_words(words: &Vec<String>, path_opt: Option<&str>) -> (c: Option<ExecCommand>)
    ensures
        command_view(c) == spec_command(Some(words.deep_view()), opt_str_view(path_opt)),
{
    let ghost w = words.deep_view();
    let ghost path = opt_str_view(path_opt);
    if words.len() == 0 {
        return None;
    }
    let ghost rest = w.drop_first();
    // The words after the program become the arguments; an unsupported
    // field code refuses the whole line.
    let n = words.len();
    let mut args: Vec<String> = Vec::new();
    let mut i: usize = 1;
    let ghost mut acc: Seq<Seq<char>> = seq![];
    proof {
        assert(rest.skip(0) =~= rest);
        match command_args(rest, path) {
            Some(t) => {
                assert(acc + t =~= t);
            },
            None => {},
        }
    }
    while i < n
        invariant
            1 <= i <= n == words@.len(),
            w == words.deep_view(),
            rest == w.drop_first(),
            path == opt_str_view(path_opt),
            args.deep_view() == acc,
            command_args(rest, path) == (match command_args(rest.skip(i - 1), path) {
                Some(t) => Some(acc + t),
                None => None,
            }),
        decreases n - i,
    {
        let a = chars_of(words[i].as_str());
        assert(a@ == rest[i - 1]);
        proof {
            lemma_command_args_prefix(rest, path, i - 1);
        }
        if a.len() > 0 && a[0] == '%' {
            if is_file_code_chars(&a) {
                match path_opt {
                    Some(p) => {
                        args.push(p.to_owned());
                        proof {
                            assert(args.deep_view() =~= acc.push(p@));
                            acc = acc.push(p@);
                            assert forall|t: Seq<Seq<char>>|
                                #![trigger acc + t]
                                acc.drop_last() + (seq![p@] + t) == acc + t by {
                                assert(acc.drop_last() + (seq![p@] + t) =~= acc + t);
                            }
                        }
                    },
                    None => {},
                }
            } else {
                return None;
            }
        } else {
            args.push(words[i].clone());
            proof {
                assert(args.deep_view() =~= acc.push(a@));
                acc = acc.push(a@);
                assert forall|t: Seq<Seq<char>>|
                    #![trigger acc + t]
                    acc.drop_last() + (seq![a@] + t) == acc + t by {
                    assert(acc.drop_last() + (seq![a@] + t) =~= acc + t);
                }
            }
        }
        i = i + 1;
    }
    proof {
        assert(rest.skip(n - 1) =~= Seq::<Seq<char>>::empty());
        assert(acc + seq![] =~= acc);
    }
    Some(ExecCommand { program: words[0].clone(), args })
}

/// The command that an `Exec` line stands for, as the launcher spawns it:
/// the line is split into shell words, the first word is the program, and
/// file field codes become `path_opt`.
pub fn exec_to_command(exec: &str, path_opt: Option<&str>) -> (c: Option<ExecCommand>)
    ensures
        command_view(c) == spec_command(shlex_words(exec@), opt_str_view(path_opt)),
{
    match shlex_split(exec) {
        Some(words) => command_from_words(&words, path_opt),
        None => None,
    }
}

} // verus!
