use vstd::prelude::*;

verus! {

/// A decoded command, ready for the repository to execute.
#[derive(Debug, Clone, PartialEq, Eq)]
pub enum Command {
    NewCommit(String, String),
    NewBranch(String, String, usize),
    DeleteBranch(String),
}

/// The mathematical value of a `Command`.
pub enum CommandV {
    NewCommit { branch: Seq<char>, payload: Seq<char> },
    NewBranch { name: Seq<char>, source: Seq<char>, offset: usize },
    DeleteBranch { name: Seq<char> },
}

impl View for Command {
    type V = CommandV;

    open spec fn view(&self) -> CommandV {
        match self {
            Command::NewCommit(branch, payload) => CommandV::NewCommit {
                branch: branch@,
                payload: payload@,
            },
            Command::NewBranch(name, source, offset) => CommandV::NewBranch {
                name: name@,
                source: source@,
                offset: *offset,
            },
            Command::DeleteBranch(name) => CommandV::DeleteBranch { name: name@ },
        }
    }
}

/// The Unicode `White_Space` characters, the separators of command words.
pub open spec fn is_wschar(c: char) -> bool {
    let u = c as u32;
    ||| u == 9
    ||| u == 10
    ||| u == 11
    ||| u == 12
    ||| u == 13
    ||| u == 32
    ||| u == 0x85
    ||| u == 0xA0
    ||| u == 0x1680
    ||| (0x2000 <= u && u <= 0x200A)
    ||| u == 0x2028
    ||| u == 0x2029
    ||| u == 0x202F
    ||| u == 0x205F
    ||| u == 0x3000
}

fn is_ws_exec(c: char) -> (b: bool)
    ensures
        b == is_wschar(c),
{
    let u = c as u32;
    u == 9 || u == 10 || u == 11 || u == 12 || u == 13 || u == 32 || u == 0x85 || u == 0xA0 || u
        == 0x1680 || (0x2000 <= u && u <= 0x200A) || u == 0x2028 || u == 0x2029 || u == 0x202F || u
        == 0x205F || u == 0x3000
}

/// One step of the whitespace splitter: position `i`, the start of the
/// currently open word (`st < 0`: none), and the words already collected.
pub open spec fn sw_step(s: Seq<char>, i: int, st: int, acc: Seq<Seq<char>>) -> Seq<Seq<char>>
    decreases s.len() - i,
{
    if i < 0 || i >= s.len() {
        if st >= 0 {
            acc.push(s.subrange(st, s.len() as int))
        } else {
            acc
        }
    } else if is_wschar(s[i]) {
        if st >= 0 {
            sw_step(s, i + 1, -1, acc.push(s.subrange(st, i)))
        } else {
            sw_step(s, i + 1, -1, acc)
        }
    } else {
        if st >= 0 {
            sw_step(s, i + 1, st, acc)
        } else {
            sw_step(s, i + 1, i, acc)
        }
    }
}

/// The whitespace-separated words of `s`, in order.
pub open spec fn split_ws(s: Seq<char>) -> Seq<Seq<char>> {
    sw_step(s, 0, -1, Seq::empty())
}

/// The views of a sequence of owned strings.
pub open spec fn str_views(v: Seq<String>) -> Seq<Seq<char>> {
    v.map_values(|x: String| x@)
}

proof fn lemma_str_views_push(v: Seq<String>, x: String)
    ensures
        str_views(v.push(x)) == str_views(v).push(x@),
{
    assert(str_views(v.push(x)) =~= str_views(v).push(x@));
}

/// Splits a line into its whitespace-separated words.
fn split_ws_exec(s: &str) -> (toks: Vec<String>)
    ensures
        str_views(toks@) == split_ws(s@),
{
    let n = s.unicode_len();
    let mut toks: Vec<String> = Vec::new();
    proof {
        assert(str_views(toks@) =~= Seq::<Seq<char>>::empty());
    }
    let mut st: Option<usize> = None;
    let mut i: usize = 0;
    while i < n
        invariant
            n == s@.len(),
            i <= n,
            match st {
                Some(t0) => t0 < i || (t0 == 0 && i == 0),
                None => true,
            },
            sw_step(
                s@,
                i as int,
                (match st {
                    Some(t0) => t0 as int,
                    None => -1,
                }),
                str_views(toks@),
            ) == split_ws(s@),
        decreases n - i,
    {
        let c = s.get_char(i);
        if is_ws_exec(c) {
            match st {
                Some(t0) => {
                    let tok = String::from_str(s.substring_char(t0, i));
                    proof {
                        lemma_str_views_push(toks@, tok);
                    }
                    toks.push(tok);
                    st = None;
                },
                None => {},
            }
        } else {
            match st {
                Some(_) => {},
                None => {
                    st = Some(i);
                },
            }
        }
        i = i + 1;
    }
    match st {
        Some(t0) => {
            let tok = String::from_str(s.substring_char(t0, n));
            proof {
                lemma_str_views_push(toks@, tok);
            }
            toks.push(tok);
        },
        None => {},
    }
    toks
}

/// The first position at or after `i` holding `c`, or the length of `s`
/// where there is none.
pub open spec fn find_from(s: Seq<char>, c: char, i: int) -> int
    decreases s.len() - i,
{
    if i < 0 || i >= s.len() {
        s.len() as int
    } else if s[i] == c {
        i
    } else {
        find_from(s, c, i + 1)
    }
}

/// The part of `s` before the first `c` (all of `s` where there is none).
pub open spec fn before_first(s: Seq<char>, c: char) -> Seq<char> {
    s.subrange(0, find_from(s, c, 0))
}

/// The part of `s` strictly between the first `c` and the next `c` (or the
/// end), or nothing where `s` holds no `c` at all.
pub open spec fn between_first_pair(s: Seq<char>, c: char) -> Option<Seq<char>> {
    let f1 = find_from(s, c, 0);
    if f1 == s.len() {
        None
    } else {
        Some(s.subrange(f1 + 1, find_from(s, c, f1 + 1)))
    }
}

fn find_char(s: &str, c: char, start: usize) -> (r: usize)
    requires
        start as int <= s@.len(),
    ensures
        r as int == find_from(s@, c, start as int),
        start <= r,
        r as int <= s@.len(),
{
    let n = s.unicode_len();
    let mut i: usize = start;
    while i < n
        invariant
            start <= i <= n,
            n == s@.len(),
            find_from(s@, c, start as int) == find_from(s@, c, i as int),
        decreases n - i,
    {
        if s.get_char(i) == c {
            return i;
        }
        i = i + 1;
    }
    n
}

/// A decimal digit.
pub open spec fn is_digit_char(c: char) -> bool {
    48 <= c as u32 <= 57
}

/// The value of one digit.
pub open spec fn digit_val(c: char) -> nat {
    (c as u32 - 48) as nat
}

/// The value of a digit string, most significant first.
pub open spec fn digits_value(d: Seq<char>) -> nat
    decreases d.len(),
{
    if d.len() == 0 {
        0
    } else {
        digits_value(d.drop_last()) * 10 + digit_val(d.last())
    }
}

pub open spec fn all_digits(d: Seq<char>) -> bool {
    forall|j: int| 0 <= j < d.len() ==> is_digit_char(#[trigger] d[j])
}

/// What `str::parse::<usize>` accepts: an optional leading plus sign, then
/// one or more decimal digits whose value fits the type.
pub open spec fn parse_usize_spec(t: Seq<char>) -> Option<usize> {
    let d = if t.len() >= 1 && t[0] == '+' {
        t.subrange(1, t.len() as int)
    } else {
        t
    };
    if d.len() >= 1 && all_digits(d) && digits_value(d) <= usize::MAX {
        Some(digits_value(d) as usize)
    } else {
        None
    }
}

proof fn lemma_digits_value_step(d: Seq<char>, j: int)
    requires
        0 <= j < d.len(),
    ensures
        digits_value(d.subrange(0, j + 1)) == digits_value(d.subrange(0, j)) * 10 + digit_val(
            d[j],
        ),
{
    assert(d.subrange(0, j + 1).drop_last() =~= d.subrange(0, j));
    assert(d.subrange(0, j + 1).last() == d[j]);
}

proof fn lemma_digits_value_mono(d: Seq<char>, n1: int, n2: int)
    requires
        0 <= n1 <= n2 <= d.len(),
    ensures
        digits_value(d.subrange(0, n1)) <= digits_value(d.subrange(0, n2)),
    decreases n2 - n1,
{
    if n1 < n2 {
        lemma_digits_value_mono(d, n1, n2 - 1);
        lemma_digits_value_step(d, n2 - 1);
    }
}

#[verifier::rlimit(50)]
fn parse_usize_exec(t: &str) -> (r: Option<usize>)
    ensures
        r == parse_usize_spec(t@),
{
    let n = t.unicode_len();
    let start: usize = if n >= 1 && t.get_char(0) == '+' {
        1
    } else {
        0
    };
    let ghost d: Seq<char> = if start == 1 {
        t@.subrange(1, t@.len() as int)
    } else {
        t@
    };
    proof {
        assert(d.len() == n - start);
        assert(forall|j: int| 0 <= j < d.len() ==> d[j] == t@[j + start]);
    }
    if n == start {
        return None;
    }
    let mut i: usize = start;
    let mut acc: usize = 0;
    while i < n
        invariant
            start <= i <= n,
            start <= 1,
            n == t@.len(),
            start < n,
            (start == 1) <==> (n >= 1 && t@[0] == '+'),
            d == (if start == 1 {
                t@.subrange(1, t@.len() as int)
            } else {
                t@
            }),
            d.len() == n - start,
            forall|j: int| 0 <= j < i - start ==> is_digit_char(#[trigger] d[j]),
            acc as nat == digits_value(d.subrange(0, i - start)),
        decreases n - i,
    {
        let c = t.get_char(i);
        let u = c as u32;
        if u < 48 || u > 57 {
            proof {
                assert(0 <= i - start < d.len());
                assert(d[i - start] == t@[i as int]);
                assert(!is_digit_char(d[i - start]));
                assert(!all_digits(d));
            }
            return None;
        }
        let dig: usize = (u - 48) as usize;
        proof {
            lemma_digits_value_step(d, i - start);
        }
        let m = match acc.checked_mul(10) {
            Some(m) => m,
            None => {
                proof {
                    assert(digit_val(d[i - start]) == u - 48);
                    assert(digits_value(d.subrange(0, i - start + 1)) > usize::MAX);
                    lemma_digits_value_mono(d, i - start + 1, d.len() as int);
                    assert(d.subrange(0, d.len() as int) =~= d);
                    assert(digits_value(d) > usize::MAX);
                }
                return None;
            },
        };
        let next = match m.checked_add(dig) {
            Some(v) => v,
            None => {
                proof {
                    assert(digit_val(d[i - start]) == u - 48);
                    assert(digits_value(d.subrange(0, i - start + 1)) > usize::MAX);
                    lemma_digits_value_mono(d, i - start + 1, d.len() as int);
                    assert(d.subrange(0, d.len() as int) =~= d);
                    assert(digits_value(d) > usize::MAX);
                }
                return None;
            },
        };
        acc = next;
        i = i + 1;
    }
    proof {
        assert(d.subrange(0, d.len() as int) =~= d);
    }
    Some(acc)
}

/// The ancestor offset carried by a branch-location word: the digits
/// between the first tilde and the next (or the end), read as a number;
/// absent or unreadable digits mean 0.
pub open spec fn offset_of_token(last: Seq<char>) -> usize {
    match between_first_pair(last, '~') {
        Some(dig) => match parse_usize_spec(dig) {
            Some(v) => v,
            None => 0,
        },
        None => 0,
    }
}

/// What decoding a command line yields: the command, or the error message
/// for the first missing or unexpected part.
pub open spec fn spec_parse(s: Seq<char>) -> Result<CommandV, Seq<char>> {
    let toks = split_ws(s);
    if toks.len() == 0 {
        Err("Unknown first token"@)
    } else if toks[0] == "new"@ {
        if toks.len() >= 2 && toks[1] == "branch"@ {
            if toks.len() >= 3 {
                let last = toks.last();
                Ok(
                    CommandV::NewBranch {
                        name: toks[2],
                        source: before_first(last, '~'),
                        offset: offset_of_token(last),
                    },
                )
            } else {
                Err("Missing new branch"@)
            }
        } else if toks.len() >= 2 && toks[1] == "commit"@ {
            match between_first_pair(s, '\'') {
                Some(p) => Ok(CommandV::NewCommit { branch: toks.last(), payload: p }),
                None => Err("Missing payload"@),
            }
        } else {
            Err("Unexpected second token after `new`"@)
        }
    } else if toks[0] == "delete"@ {
        if toks.len() >= 2 && toks[1] == "branch"@ {
            if toks.len() >= 3 {
                Ok(CommandV::DeleteBranch { name: toks[2] })
            } else {
                Err("Missing branch to delete"@)
            }
        } else {
            Err("Unexpected second token after `new`"@)
        }
    } else {
        Err("Unknown first token"@)
    }
}

fn str_eq(a: &String, b: &str) -> (r: bool)
    ensures
        r == (a@ == b@),
{
    let bs = String::from_str(b);
    *a == bs
}

/// Decodes one command line, exactly as `spec_parse` describes it.
pub fn parse_command(input: &str) -> (r: Result<Command, &str>)
    ensures
        match (r, spec_parse(input@)) {
            (Ok(c), Ok(cv)) => c@ == cv,
            (Err(e), Err(ev)) => e@ == ev,
            _ => false,
        },
{
    let toks = split_ws_exec(input);
    if toks.len() == 0 {
        return Err("Unknown first token");
    }
    if str_eq(&toks[0], "new") {
        if toks.len() >= 2 && str_eq(&toks[1], "branch") {
            if toks.len() >= 3 {
                let name = toks[2].clone();
                let last = &toks[toks.len() - 1];
                let llen = last.as_str().unicode_len();
                let f1 = find_char(last.as_str(), '~', 0);
                let loc = String::from_str(last.as_str().substring_char(0, f1));
                let off: usize = if f1 == llen {
                    0
                } else {
                    let f2 = find_char(last.as_str(), '~', f1 + 1);
                    let digs = last.as_str().substring_char(f1 + 1, f2);
                    match parse_usize_exec(digs) {
                        Some(v) => v,
                        None => 0,
                    }
                };
                Ok(Command::NewBranch(name, loc, off))
            } else {
                Err("Missing new branch")
            }
        } else if toks.len() >= 2 && str_eq(&toks[1], "commit") {
            let n = input.unicode_len();
            let f1 = find_char(input, '\'', 0);
            if f1 == n {
                Err("Missing payload")
            } else {
                let f2 = find_char(input, '\'', f1 + 1);
                let payload = String::from_str(input.substring_char(f1 + 1, f2));
                let branch = toks[toks.len() - 1].clone();
                Ok(Command::NewCommit(branch, payload))
            }
        } else {
            Err("Unexpected second token after `new`")
        }
    } else if str_eq(&toks[0], "delete") {
        if toks.len() >= 2 && str_eq(&toks[1], "branch") {
            if toks.len() >= 3 {
                Ok(Command::DeleteBranch(toks[2].clone()))
            } else {
                Err("Missing branch to delete")
            }
        } else {
            Err("Unexpected second token after `new`")
        }
    } else {
        Err("Unknown first token")
    }
}

} // verus!
