//! The interactive client's own logic: its command history and the
//! commands it understands.

use vstd::prelude::*;
use vstd::string::*;

use crate::metadata::{lemma_strs_push, strs};

verus! {

/// The history once `command` is entered: its earliest earlier entry, if
/// any, is dropped, and it is appended as the newest.
pub fn add_to_history(history: &Vec<String>, command: &String) -> (r: Vec<String>)
    ensures
        !strs(history@).contains(command@) ==> strs(r@) == strs(history@).push(command@),
        strs(history@).contains(command@) ==> exists|p: int|
            0 <= p < history@.len() && strs(history@)[p] == command@ && (forall|j: int|
                0 <= j < p ==> strs(history@)[j] != command@) && strs(r@) == strs(history@).remove(
                p,
            ).push(command@),
{
    let ghost h = strs(history@);
    let mut p: usize = 0;
    while p < history.len()
        invariant
            h == strs(history@),
            p <= history.len(),
            forall|j: int| 0 <= j < p ==> h[j] != command@,
        ensures
            p <= history.len(),
            forall|j: int| 0 <= j < p ==> h[j] != command@,
            p < history.len() ==> h[p as int] == command@,
        decreases history.len() - p,
    {
        if history[p] == *command {
            break;
        }
        p += 1;
    }
    let mut out: Vec<String> = Vec::new();
    let mut i: usize = 0;
    while i < history.len()
        invariant
            h == strs(history@),
            p <= history.len(),
            i <= history.len(),
            strs(out@) == if i <= p {
                h.take(i as int)
            } else {
                h.take(p as int) + h.subrange(p + 1, i as int)
            },
        decreases history.len() - i,
    {
        if i != p {
            let ghost before = out@;
            let c = history[i].clone();
            out.push(c);
            proof { lemma_strs_push(before, c); }
        }
        i += 1;
        proof {
            if i <= p {
                assert(strs(out@) =~= h.take(i as int));
            } else if i == p + 1 {
                assert(strs(out@) =~= h.take(p as int) + h.subrange(p + 1, i as int));
            } else {
                assert(strs(out@) =~= h.take(p as int) + h.subrange(p + 1, i as int));
            }
        }
    }
    let ghost before = out@;
    let c = command.clone();
    out.push(c);
    proof {
        lemma_strs_push(before, c);
        if p < history.len() {
            assert(h[p as int] == command@);
            assert(h.take(p as int) + h.subrange(p + 1, h.len() as int) =~= h.remove(p as int));
        } else {
            assert(h.take(i as int) =~= h);
            assert(!h.contains(command@));
        }
    }
    out
}

/// ASCII whitespace, as the client's input is ASCII.
pub open spec fn is_space(c: char) -> bool {
    c == ' ' || c == '\t' || c == '\n' || c == '\r' || c == '\x0b' || c == '\x0c'
}

/// The maximal runs of non-space characters of `s`, in order.
pub open spec fn words(s: Seq<char>) -> Seq<Seq<char>>
    decreases s.len(),
{
    if s.len() == 0 {
        Seq::empty()
    } else {
        let w = words(s.drop_last());
        let c = s.last();
        if is_space(c) {
            w
        } else if s.len() >= 2 && !is_space(s[s.len() - 2]) {
            w.update(w.len() - 1, w.last().push(c))
        } else {
            w.push(seq![c])
        }
    }
}

/// A command line of the client.
#[derive(Debug, Clone, PartialEq, Eq)]
pub enum ClientCommand {
    /// Nothing but whitespace.
    Empty,
    Exit,
    Ls,
    /// `put <filename> <data>`.
    Put { filename: String, data: String },
    /// A known command with too few arguments.
    Malformed,
    /// Any other first word.
    Unknown(String),
}

/// The positions `[start, end)` of the words of `s`.
fn word_ranges(s: &str) -> (r: Vec<(usize, usize)>)
    ensures
        r@.len() == words(s@).len(),
        forall|i: int| 0 <= i < r@.len() ==> {
            &&& (#[trigger] r@[i]).0 <= r@[i].1 <= s@.len()
            &&& s@.subrange(r@[i].0 as int, r@[i].1 as int) == words(s@)[i]
        },
{
    let n = s.unicode_len();
    let mut out: Vec<(usize, usize)> = Vec::new();
    let mut start: usize = 0;
    let mut in_word = false;
    let mut i: usize = 0;
    while i < n
        invariant
            n == s@.len(),
            start <= i <= n,
            in_word ==> i > 0 && !is_space(s@[i - 1]) && start < i,
            !in_word ==> i == 0 || is_space(s@[i - 1]),
            in_word ==> words(s@.take(i as int)).len() == out@.len() + 1
                && words(s@.take(i as int)).last() == s@.subrange(start as int, i as int),
            !in_word ==> words(s@.take(i as int)).len() == out@.len(),
            forall|k: int| 0 <= k < out@.len() ==> {
                &&& (#[trigger] out@[k]).0 <= out@[k].1 <= i
                &&& s@.subrange(out@[k].0 as int, out@[k].1 as int) == words(s@.take(i as int))[k]
            },
        decreases n - i,
    {
        let c = s.get_char(i);
        proof {
            let t = s@.take(i + 1);
            assert(t.drop_last() =~= s@.take(i as int));
            assert(t.last() == c);
            if i > 0 {
                assert(t[t.len() - 2] == s@[i - 1]);
            }
        }
        if is_space_char(c) {
            if in_word {
                out.push((start, i));
            }
            in_word = false;
        } else {
            if !in_word {
                start = i;
                in_word = true;
                proof {
                    assert(s@.subrange(start as int, (i + 1) as int) =~= seq![c]);
                }
            } else {
                proof {
                    assert(s@.subrange(start as int, (i + 1) as int) =~= s@.subrange(start as int, i as int).push(c));
                }
            }
        }
        i += 1;
    }
    if in_word {
        out.push((start, i));
    }
    assert(s@.take(i as int) =~= s@);
    out
}

fn is_space_char(c: char) -> (r: bool)
    ensures
        r == is_space(c),
{
    c == ' ' || c == '\t' || c == '\n' || c == '\r' || c == '\x0b' || c == '\x0c'
}

/// Whether a word reads `lit`.
fn word_is(s: &str, range: (usize, usize), lit: &str) -> (r: bool)
    requires
        range.0 <= range.1 <= s@.len(),
    ensures
        r == (s@.subrange(range.0 as int, range.1 as int) == lit@),
{
    let n = lit.unicode_len();
    if range.1 - range.0 != n {
        return false;
    }
    let mut i: usize = 0;
    while i < n
        invariant
            n == lit@.len(),
            range.1 - range.0 == n,
            range.0 <= range.1 <= s@.len(),
            i <= n,
            forall|k: int| 0 <= k < i ==> s@[range.0 + k] == lit@[k],
        decreases n - i,
    {
        if s.get_char(range.0 + i) != lit.get_char(i) {
            assert(s@.subrange(range.0 as int, range.1 as int)[i as int] != lit@[i as int]);
            return false;
        }
        i += 1;
    }
    assert(s@.subrange(range.0 as int, range.1 as int) =~= lit@);
    true
}

/// What a command line asks for: the first word names the command; `put`
/// takes a file name and its contents as the next two words.
pub fn parse_command(line: &str) -> (r: ClientCommand)
    ensures
        words(line@).len() == 0 ==> r == ClientCommand::Empty,
        words(line@).len() > 0 && words(line@)[0] == "exit"@ ==> r == ClientCommand::Exit,
        words(line@).len() > 0 && words(line@)[0] == "ls"@ ==> r == ClientCommand::Ls,
        words(line@).len() > 0 && words(line@)[0] == "put"@ && words(line@).len() < 3 ==> r == ClientCommand::Malformed,
        words(line@).len() >= 3 && words(line@)[0] == "put"@ ==> (r matches ClientCommand::Put { filename, data }
            && filename@ == words(line@)[1] && data@ == words(line@)[2]),
        words(line@).len() > 0 && words(line@)[0] != "exit"@ && words(line@)[0] != "ls"@ && words(line@)[0] != "put"@
            ==> (r matches ClientCommand::Unknown(name) && name@ == words(line@)[0]),
{
    proof {
        reveal_strlit("exit");
        reveal_strlit("ls");
        reveal_strlit("put");
        assert("exit"@.len() == 4);
        assert("ls"@.len() == 2);
        assert("put"@.len() == 3);
    }
    let ranges = word_ranges(line);
    if ranges.len() == 0 {
        return ClientCommand::Empty;
    }
    let first = ranges[0];
    if word_is(line, first, "exit") {
        ClientCommand::Exit
    } else if word_is(line, first, "ls") {
        ClientCommand::Ls
    } else if word_is(line, first, "put") {
        if ranges.len() < 3 {
            ClientCommand::Malformed
        } else {
            let f = ranges[1];
            let d = ranges[2];
            ClientCommand::Put {
                filename: String::from_str(line.substring_char(f.0, f.1)),
                data: String::from_str(line.substring_char(d.0, d.1)),
            }
        }
    } else {
        ClientCommand::Unknown(String::from_str(line.substring_char(first.0, first.1)))
    }
}

} // verus!
