//! Resolving a path through linked IPLD nodes: the path is split into
//! segments, and each segment selects, in the current node, the link to the
//! next node. The caller fetches each node; the decisions are made here.
use vstd::prelude::*;
use crate::cid::Cid;
use crate::error::Error;

verus! {

/// The segments finished so far and the run of characters after the last
/// `'/'`, for a path read from its start.
pub open spec fn seg_scan(s: Seq<char>) -> (Seq<Seq<char>>, Seq<char>)
    decreases s.len(),
{
    if s.len() == 0 {
        (Seq::empty(), Seq::empty())
    } else {
        let (done, cur) = seg_scan(s.drop_last());
        if s.last() == '/' {
            (if cur.len() > 0 { done.push(cur) } else { done }, Seq::empty())
        } else {
            (done, cur.push(s.last()))
        }
    }
}

/// The segments of a path: its non-empty runs of characters between `'/'`
/// characters, in order (leading, trailing and repeated slashes give none).
pub open spec fn path_segments_spec(s: Seq<char>) -> Seq<Seq<char>> {
    let (done, cur) = seg_scan(s);
    if cur.len() > 0 { done.push(cur) } else { done }
}

/// The views of a list of strings.
pub open spec fn string_views(v: Seq<String>) -> Seq<Seq<char>> {
    v.map_values(|x: String| x@)
}

/// The segments of `path` (see `path_segments_spec`).
pub fn path_segments(path: &str) -> (r: Vec<String>)
    ensures string_views(r@) == path_segments_spec(path@),
{
    let n = path.unicode_len();
    let mut r: Vec<String> = Vec::new();
    let mut start: usize = 0;
    let mut i: usize = 0;
    while i < n
        invariant
            n == path@.len(), start <= i <= n,
            seg_scan(path@.subrange(0, i as int)) == (string_views(r@), path@.subrange(start as int, i as int)),
        decreases n - i,
    {
        let c = path.get_char(i);
        assert(path@.subrange(0, i + 1).drop_last() =~= path@.subrange(0, i as int));
        assert(path@.subrange(0, i + 1).last() == c);
        if c == '/' {
            if i > start {
                let seg = path.substring_char(start, i).to_owned();
                let ghost before = string_views(r@);
                r.push(seg);
                assert(string_views(r@) =~= before.push(path@.subrange(start as int, i as int)));
            }
            start = i + 1;
            assert(path@.subrange(start as int, i + 1) =~= Seq::<char>::empty());
        } else {
            assert(path@.subrange(start as int, i + 1) =~= path@.subrange(start as int, i as int).push(c));
        }
        i += 1;
    }
    assert(path@.subrange(0, n as int) =~= path@);
    if n > start {
        let seg = path.substring_char(start, n).to_owned();
        let ghost before = string_views(r@);
        r.push(seg);
        assert(string_views(r@) =~= before.push(path@.subrange(start as int, n as int)));
    }
    r
}

/// A value inside an IPLD node, as far as path resolution looks at it: a
/// link to another node, or anything else.
#[derive(Debug, Clone)]
pub enum IpldValue {
    Link(Cid),
    Other,
}

/// An IPLD node, as far as path resolution looks at it: a map from keys to
/// values (its entries, in key order), a list of values, or anything else.
#[derive(Debug, Clone)]
pub enum IpldNode {
    Mapping(Vec<(String, IpldValue)>),
    List(Vec<IpldValue>),
    Other,
}

/// Index of the first entry with key `key`, or -1.
pub open spec fn entry_of(entries: Seq<(String, IpldValue)>, key: Seq<char>) -> int
    decreases entries.len(),
{
    if entries.len() == 0 {
        -1
    } else if entry_of(entries.drop_last(), key) >= 0 {
        entry_of(entries.drop_last(), key)
    } else if entries.last().0@ == key {
        entries.len() - 1
    } else {
        -1
    }
}

proof fn lemma_entry_of(entries: Seq<(String, IpldValue)>, key: Seq<char>, i: int)
    requires 0 <= i <= entries.len(), forall|j: int| 0 <= j < i ==> entries[j].0@ != key,
    ensures
        i < entries.len() && entries[i].0@ == key ==> entry_of(entries, key) == i,
        i == entries.len() ==> entry_of(entries, key) == -1,
    decreases entries.len(),
{
    if entries.len() > 0 {
        if i < entries.len() {
            lemma_entry_of(entries.drop_last(), key, i);
        } else {
            lemma_entry_of(entries.drop_last(), key, i - 1);
        }
    }
}

/// The value of a decimal digit character.
pub open spec fn digit_value(c: char) -> int {
    (c as u32) - ('0' as u32)
}

/// Whether `c` is a decimal digit.
pub open spec fn is_digit(c: char) -> bool {
    '0' <= c && c <= '9'
}

/// The number the digits of `s` spell.
pub open spec fn decimal_value(s: Seq<char>) -> int
    decreases s.len(),
{
    if s.len() == 0 { 0 } else { decimal_value(s.drop_last()) * 10 + digit_value(s.last()) }
}

/// The characters of an index after its optional leading `'+'`.
pub open spec fn index_digits(s: Seq<char>) -> Seq<char> {
    if s.len() > 0 && s[0] == '+' { s.drop_first() } else { s }
}

/// What `str::parse::<usize>` gives: the number that an optional `'+'`
/// followed by one or more decimal digits spells, when it fits in a
/// `usize`; `None` otherwise.
pub open spec fn parsed_index(s: Seq<char>) -> Option<usize> {
    let d = index_digits(s);
    if d.len() > 0 && (forall|i: int| 0 <= i < d.len() ==> is_digit(#[trigger] d[i])) && decimal_value(d) <= usize::MAX {
        Some(decimal_value(d) as usize)
    } else {
        None
    }
}

proof fn lemma_decimal_grows(s: Seq<char>, k: int)
    requires 0 <= k <= s.len(), forall|i: int| 0 <= i < s.len() ==> is_digit(#[trigger] s[i]),
    ensures 0 <= decimal_value(s.subrange(0, k)) <= decimal_value(s),
    decreases s.len() - k,
{
    if k < s.len() {
        lemma_decimal_grows(s, k + 1);
        assert(s.subrange(0, k + 1).drop_last() =~= s.subrange(0, k));
    } else {
        assert(s.subrange(0, k) =~= s);
    }
    lemma_decimal_nonneg(s.subrange(0, k));
}

proof fn lemma_decimal_nonneg(s: Seq<char>)
    requires forall|i: int| 0 <= i < s.len() ==> is_digit(#[trigger] s[i]),
    ensures decimal_value(s) >= 0,
    decreases s.len(),
{
    if s.len() > 0 {
        lemma_decimal_nonneg(s.drop_last());
    }
}

/// `str::parse::<usize>` (see `parsed_index`).
pub fn parse_index(s: &str) -> (r: Option<usize>)
    ensures r == parsed_index(s@),
{
    let n = s.unicode_len();
    let mut i: usize = 0;
    if n > 0 && s.get_char(0) == '+' {
        i = 1;
    }
    let ghost d = index_digits(s@);
    let ghost off = i as int;
    assert(d =~= s@.subrange(off, n as int));
    if i == n {
        assert(d.len() == 0);
        return None;
    }
    let mut v: usize = 0;
    while i < n
        invariant
            0 <= off <= i <= n, n == s@.len(), d == s@.subrange(off, n as int), off <= 1, d.len() == n - off, d.len() > 0,
            d == index_digits(s@),
            forall|j: int| 0 <= j < i - off ==> is_digit(#[trigger] d[j]),
            v == decimal_value(d.subrange(0, i - off)),
        decreases n - i,
    {
        let c = s.get_char(i);
        assert(s@[i as int] == c);
        assert(d[i - off] == s@[i as int]);
        if !('0' <= c && c <= '9') {
            assert(!is_digit(d[i - off]));
            assert(!(forall|j: int| 0 <= j < d.len() ==> is_digit(#[trigger] d[j])));
            assert(parsed_index(s@) is None);
            return None;
        }
        let dv = (c as u32 - '0' as u32) as usize;
        assert(d.subrange(0, i - off + 1).drop_last() =~= d.subrange(0, i - off));
        assert(d.subrange(0, i - off + 1).last() == c);
        if v > (usize::MAX - dv) / 10 {
            proof {
                assert forall|j: int| 0 <= j < i - off + 1 implies is_digit(#[trigger] d.subrange(0, i - off + 1)[j]) by {
                    assert(d.subrange(0, i - off + 1)[j] == d[j]);
                }
                assert(decimal_value(d.subrange(0, i - off + 1)) > usize::MAX) by (nonlinear_arith)
                    requires decimal_value(d.subrange(0, i - off + 1)) == v * 10 + dv, v > (usize::MAX - dv) / 10, dv <= 9;
                if forall|j: int| 0 <= j < d.len() ==> is_digit(#[trigger] d[j]) {
                    lemma_decimal_grows(d, i - off + 1);
                    assert(decimal_value(d) > usize::MAX);
                }
                assert(parsed_index(s@) is None);
            }
            return None;
        }
        assert(v * 10 + dv <= usize::MAX) by (nonlinear_arith)
            requires v <= (usize::MAX - dv) / 10, dv <= 9;
        v = v * 10 + dv;
        i += 1;
    }
    assert(d.subrange(0, n - off) =~= d);
    Some(v)
}

/// What resolving one path segment in a node gives: the linked CID, `None`
/// when there is nothing under the segment, or an `InvalidData` error.
pub enum StepSpec {
    Next(Cid),
    Missing,
    Invalid,
}

/// The outcome of resolving segment `part` in `node`: in a map, the entry
/// with that key (its link, or an error for another value, or nothing); in
/// a list, the element at the index the segment spells (its link, an error
/// for another value, nothing past the end, or an error when the segment is
/// no index); in any other node, an error.
pub open spec fn step_spec(node: IpldNode, part: Seq<char>) -> StepSpec {
    match node {
        IpldNode::Mapping(entries) => {
            let k = entry_of(entries@, part);
            if k < 0 {
                StepSpec::Missing
            } else {
                match entries@[k].1 {
                    IpldValue::Link(c) => StepSpec::Next(c),
                    IpldValue::Other => StepSpec::Invalid,
                }
            }
        },
        IpldNode::List(items) => match parsed_index(part) {
            None => StepSpec::Invalid,
            Some(i) => if i < items@.len() {
                match items@[i as int] {
                    IpldValue::Link(c) => StepSpec::Next(c),
                    IpldValue::Other => StepSpec::Invalid,
                }
            } else {
                StepSpec::Missing
            },
        },
        IpldNode::Other => StepSpec::Invalid,
    }
}

/// `format!` of the message for a path segment at a non-link map value.
/// Nothing is stated of the text.
#[verifier::external_body]
fn non_link_key_message(part: &str) -> String {
    format!("Path leads to non-link value at '{}'", part)
}

/// `format!` of the message for a segment that is no list index. Nothing is
/// stated of the text.
#[verifier::external_body]
fn bad_index_message(part: &str) -> String {
    format!("Invalid list index: '{}'", part)
}

/// `format!` of the message for a list index at a non-link value. Nothing
/// is stated of the text.
#[verifier::external_body]
fn non_link_index_message(index: usize) -> String {
    format!("Path leads to non-link value at index {}", index)
}

/// `format!` of the message for a segment in a node that is neither a map
/// nor a list. Nothing is stated of the text.
#[verifier::external_body]
fn not_navigable_message(part: &str) -> String {
    format!("Cannot navigate through non-map/non-list value at '{}'", part)
}

/// Resolve one path segment in a node (see `step_spec`): `Ok(Some(cid))`
/// for the next node's CID, `Ok(None)` when nothing is there, and
/// `InvalidData` otherwise.
pub fn resolve_step(node: &IpldNode, part: &str) -> (r: Result<Option<Cid>, Error>)
    ensures
        match step_spec(*node, part@) {
            StepSpec::Next(c) => r matches Ok(Some(x)) && x@ == c@,
            StepSpec::Missing => r matches Ok(None),
            StepSpec::Invalid => r matches Err(e) && e.kind() == crate::error::ErrorKind::InvalidData,
        },
{
    match node {
        IpldNode::Mapping(entries) => {
            let key = String::from_str(part);
            let mut i: usize = 0;
            while i < entries.len()
                invariant
                    i <= entries@.len(), key@ == part@, forall|j: int| 0 <= j < i ==> entries@[j].0@ != part@,
                    *node == IpldNode::Mapping(*entries),
                decreases entries.len() - i,
            {
                if entries[i].0.eq(&key) {
                    proof { lemma_entry_of(entries@, part@, i as int); }
                    assert(entry_of(entries@, part@) == i as int);
                    let v = &entries[i].1;
                    assert(*v == entries@[i as int].1);
                    match v {
                        IpldValue::Link(c) => {
                            let x = c.clone();
                            return Ok(Some(x));
                        },
                        IpldValue::Other => {
                            return Err(Error::InvalidData(non_link_key_message(part)));
                        },
                    }
                }
                i += 1;
            }
            proof { lemma_entry_of(entries@, part@, i as int); }
            Ok(None)
        },
        IpldNode::List(items) => {
            match parse_index(part) {
                None => Err(Error::InvalidData(bad_index_message(part))),
                Some(index) => {
                    if index < items.len() {
                        match &items[index] {
                            IpldValue::Link(c) => Ok(Some(c.clone())),
                            IpldValue::Other => Err(Error::InvalidData(non_link_index_message(index))),
                        }
                    } else {
                        Ok(None)
                    }
                },
            }
        },
        IpldNode::Other => Err(Error::InvalidData(not_navigable_message(part))),
    }
}

} // verus!
