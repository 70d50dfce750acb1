//! The list of data nodes a name node starts with: `host:port` entries
//! separated by commas.

use vstd::prelude::*;
use vstd::string::*;

use crate::address::NodeAddress;
use crate::error::DfsError;

verus! {

/// The pieces of `s` between the separators `sep`, in order; a text with
/// `n` separators has `n + 1` pieces, some of which may be empty.
pub open spec fn split_on(s: Seq<char>, sep: char) -> Seq<Seq<char>>
    decreases s.len(),
{
    if s.len() == 0 {
        seq![Seq::empty()]
    } else {
        let r = split_on(s.drop_last(), sep);
        if s.last() == sep {
            r.push(Seq::empty())
        } else {
            r.update(r.len() - 1, r.last().push(s.last()))
        }
    }
}

/// The value of a decimal digit character.
pub open spec fn digit_value(c: char) -> nat {
    (c as nat - '0' as nat) as nat
}

/// A non-empty run of decimal digits.
pub open spec fn is_digits(s: Seq<char>) -> bool {
    s.len() > 0 && forall|i: int| 0 <= i < s.len() ==> '0' <= #[trigger] s[i] <= '9'
}

/// The number that a run of decimal digits writes.
pub open spec fn digits_value(s: Seq<char>) -> nat
    decreases s.len(),
{
    if s.len() == 0 {
        0
    } else {
        digits_value(s.drop_last()) * 10 + digit_value(s.last())
    }
}

/// An entry `host:port`, with exactly one colon and a port no greater
/// than 65535.
pub open spec fn parse_entry(e: Seq<char>) -> Option<(Seq<char>, nat)> {
    let parts = split_on(e, ':');
    if parts.len() == 2 && is_digits(parts[1]) && digits_value(parts[1]) <= 65535 {
        Some((parts[0], digits_value(parts[1])))
    } else {
        None
    }
}

/// All entries of a node list parse.
pub open spec fn all_entries_parse(s: Seq<char>) -> bool {
    forall|i: int| 0 <= i < split_on(s, ',').len() ==> (#[trigger] parse_entry(split_on(s, ',')[i])) is Some
}

/// The positions `[from, to)` of the pieces of `s[from..to]` between the
/// separators `sep`.
fn split_ranges(s: &str, from: usize, to: usize, sep: char) -> (r: Vec<(usize, usize)>)
    requires
        from <= to <= s@.len(),
    ensures
        r@.len() == split_on(s@.subrange(from as int, to as int), sep).len(),
        forall|i: int| 0 <= i < r@.len() ==> {
            &&& from <= (#[trigger] r@[i]).0 <= r@[i].1 <= to
            &&& s@.subrange(r@[i].0 as int, r@[i].1 as int) == split_on(s@.subrange(from as int, to as int), sep)[i]
        },
{
    let ghost t = s@.subrange(from as int, to as int);
    let mut out: Vec<(usize, usize)> = Vec::new();
    let mut start: usize = from;
    let mut i: usize = from;
    while i < to
        invariant
            from <= start <= i <= to <= s@.len(),
            t == s@.subrange(from as int, to as int),
            split_on(t.take(i - from), sep).len() == out@.len() + 1,
            split_on(t.take(i - from), sep).last() == s@.subrange(start as int, i as int),
            forall|k: int| 0 <= k < out@.len() ==> {
                &&& from <= (#[trigger] out@[k]).0 <= out@[k].1 <= start
                &&& s@.subrange(out@[k].0 as int, out@[k].1 as int) == split_on(t.take(i - from), sep)[k]
            },
        decreases to - i,
    {
        let c = s.get_char(i);
        let ghost prev = split_on(t.take(i - from), sep);
        proof {
            assert(t.take(i + 1 - from).drop_last() =~= t.take(i - from));
            assert(t.take(i + 1 - from).last() == c);
        }
        if c == sep {
            out.push((start, i));
            start = i + 1;
            proof {
                assert(s@.subrange(start as int, (i + 1) as int) =~= Seq::<char>::empty());
            }
        } else {
            proof {
                assert(s@.subrange(start as int, (i + 1) as int) =~= s@.subrange(start as int, i as int).push(c));
            }
        }
        i += 1;
    }
    out.push((start, i));
    proof {
        assert(t.take(i - from) =~= t);
    }
    out
}

/// The port that `s[from..to]` writes, if it is a run of digits worth at
/// most 65535.
fn parse_port(s: &str, from: usize, to: usize) -> (r: Option<u16>)
    requires
        from <= to <= s@.len(),
    ensures
        ({
            let p = s@.subrange(from as int, to as int);
            &&& (is_digits(p) && digits_value(p) <= 65535) ==> r == Some(digits_value(p) as u16)
            &&& !(is_digits(p) && digits_value(p) <= 65535) ==> r is None
        }),
{
    let ghost p = s@.subrange(from as int, to as int);
    if from == to {
        return None;
    }
    let mut v: u32 = 0;
    let mut i: usize = from;
    while i < to
        invariant
            from <= i <= to <= s@.len(),
            p == s@.subrange(from as int, to as int),
            forall|k: int| 0 <= k < i - from ==> '0' <= #[trigger] p[k] <= '9',
            v as nat == if digits_value(p.take(i - from)) < 65536 {
                digits_value(p.take(i - from))
            } else {
                65536
            },
        decreases to - i,
    {
        let c = s.get_char(i);
        if !('0' <= c && c <= '9') {
            assert(p[i - from] == c);
            return None;
        }
        let d: u32 = (c as u32) - ('0' as u32);
        proof {
            assert(p.take(i + 1 - from).drop_last() =~= p.take(i - from));
            assert(p.take(i + 1 - from).last() == c);
        }
        let w: u32 = v * 10 + d;
        v = if w < 65536 { w } else { 65536 };
        i += 1;
    }
    assert(p.take(i - from) =~= p);
    if v <= 65535 {
        Some(v as u16)
    } else {
        None
    }
}

/// The data nodes of a list `host:port,host:port,...`, each marked as not
/// yet registered; refused when an entry is not `host:port` with a port no
/// greater than 65535.
pub fn parse_data_nodes(data_nodes: &str) -> (r: Result<Vec<(NodeAddress, bool)>, DfsError>)
    ensures
        all_entries_parse(data_nodes@) ==> r is Ok && ({
            let v = r->Ok_0@;
            let entries = split_on(data_nodes@, ',');
            &&& v.len() == entries.len()
            &&& forall|i: int| 0 <= i < v.len() ==> {
                &&& (#[trigger] v[i]).0.host@ == parse_entry(entries[i])->Some_0.0
                &&& v[i].0.port as nat == parse_entry(entries[i])->Some_0.1
                &&& !v[i].1
            }
        }),
        !all_entries_parse(data_nodes@) ==> r == Err::<Vec<(NodeAddress, bool)>, DfsError>(DfsError::InvalidArgument),
{
    let n = data_nodes.unicode_len();
    let ghost all = data_nodes@;
    assert(all.subrange(0, n as int) =~= all);
    let entries = split_ranges(data_nodes, 0, n, ',');
    let ghost es = split_on(all, ',');
    let mut out: Vec<(NodeAddress, bool)> = Vec::new();
    let mut i: usize = 0;
    while i < entries.len()
        invariant
            all == data_nodes@,
            n == all.len(),
            es == split_on(all, ','),
            entries@.len() == es.len(),
            forall|k: int| 0 <= k < entries@.len() ==> {
                &&& 0 <= (#[trigger] entries@[k]).0 <= entries@[k].1 <= n
                &&& all.subrange(entries@[k].0 as int, entries@[k].1 as int) == es[k]
            },
            i <= entries.len(),
            out@.len() == i,
            forall|k: int| 0 <= k < i ==> parse_entry(#[trigger] es[k]) is Some,
            forall|k: int| 0 <= k < i ==> {
                &&& (#[trigger] out@[k]).0.host@ == parse_entry(es[k])->Some_0.0
                &&& out@[k].0.port as nat == parse_entry(es[k])->Some_0.1
                &&& !out@[k].1
            },
        decreases entries.len() - i,
    {
        let (a, b) = entries[i];
        let ghost e = es[i as int];
        assert(all.subrange(a as int, b as int) == e);
        let parts = split_ranges(data_nodes, a, b, ':');
        if parts.len() != 2 {
            assert(parse_entry(es[i as int]) is None);
            return Err(DfsError::InvalidArgument);
        }
        let (h0, h1) = parts[0];
        let (p0, p1) = parts[1];
        let port = match parse_port(data_nodes, p0, p1) {
            Some(p) => p,
            None => {
                assert(parse_entry(es[i as int]) is None);
                return Err(DfsError::InvalidArgument);
            },
        };
        let host = String::from_str(data_nodes.substring_char(h0, h1));
        let ghost before = out@;
        out.push((NodeAddress { host, port }, false));
        proof {
            assert(parse_entry(es[i as int]) is Some);
            assert forall|k: int| 0 <= k < i + 1 implies {
                &&& (#[trigger] out@[k]).0.host@ == parse_entry(es[k])->Some_0.0
                &&& out@[k].0.port as nat == parse_entry(es[k])->Some_0.1
                &&& !out@[k].1
            } by {
                if k < i {
                    assert(out@[k] == before[k]);
                }
            }
        }
        i += 1;
    }
    Ok(out)
}

} // verus!
