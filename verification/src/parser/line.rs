//! The line format: a tree rebuilt from `path = value` assignments.
use vstd::prelude::*;
use crate::parser::result_view;
use crate::datetime::{
    offset_view, Date, DateTime, DateTimeView, DateView, Offset, OffsetView, Time, TimeView,
};
use crate::error::{locate, ErrorKind, Expected, ParseError};
use crate::generator::line::{default_tokens, Tokens};
use crate::parser::grammar::{digits_end, find_key, holds, number, Dialect, Step};
use crate::parser::json::{parse_number, parse_string_body, scan_digits, word_at, Fault};
use crate::parser::line_grammar::{
    assignment, assignments, date_at, datetime_at, four, literal, nanoseconds, offset_at,
    parse_lines, pow10, second_fraction_end, segment_end, segment_of, segments, time_at, two,
};
use crate::parser::Parser;
use crate::text::{
    chars_of, decimal_value, digit_value, is_digit, string_of, word2, word3, word4, word5,
};
use crate::{
    lemma_array_push, lemma_array_update, lemma_members_of, lemma_object_push, lemma_object_update,
};
use crate::{array_view, object_view, Float, Member, Tree, Value};

verus! {
/// One step of a path: into an array or into an object.
#[derive(Clone, Debug, PartialEq, Eq)]
pub enum Path {
    /// The element of an array at this index.
    Index(usize),
    /// The member of an object under this key.
    Key(String),
}

/// What a [`Path`] stands for.
pub enum PathView {
    Index(int),
    Key(Seq<char>),
}

impl View for Path {
    type V = PathView;

    open spec fn view(&self) -> PathView {
        match self {
            Path::Index(i) => PathView::Index(*i as int),
            Path::Key(k) => PathView::Key(k@),
        }
    }
}

/// The views of the steps of a path.
pub open spec fn path_view(path: Seq<Path>) -> Seq<PathView> {
    Seq::new(path.len(), |i: int| path[i]@)
}

/// One assignment: the value that stands at the end of a path.
#[derive(Debug, PartialEq, Eq)]
pub struct Item {
    pub path: Vec<Path>,
    pub value: Value,
}

/// What an [`Item`] stands for.
pub struct ItemView {
    pub path: Seq<PathView>,
    pub value: Tree,
}

impl View for Item {
    type V = ItemView;

    open spec fn view(&self) -> ItemView {
        ItemView { path: path_view(self.path@), value: self.value@ }
    }
}

/// The elements of `t` where it is an array, none where it is not.
pub open spec fn elements(t: Tree) -> Seq<Tree> {
    match t {
        Tree::Array(ts) => ts,
        _ => Seq::empty(),
    }
}

/// The members of `t` where it is an object, none where it is not.
pub open spec fn entries(t: Tree) -> Seq<(Seq<char>, Tree)> {
    match t {
        Tree::Object(ms) => ms,
        _ => Seq::empty(),
    }
}

/// `ts`, with as many `Null` behind it as it takes to have the index `i`.
pub open spec fn stretched(ts: Seq<Tree>, i: int) -> Seq<Tree> {
    if i < ts.len() {
        ts
    } else {
        ts + Seq::new((i + 1 - ts.len()) as nat, |j: int| Tree::Null)
    }
}

/// The tree `t` with `leaf` at the end of `path`.
///
/// On the way each node is made to fit the step that enters it. A step by
/// index enters an array: what is no array is replaced by an empty one, and
/// an array too short for the index is filled up with `Null`. A step by key
/// enters an object: what is no object is replaced by an empty one, and a
/// key that is missing is added at the end. What stood in the way is lost:
/// the last assignment wins.
pub open spec fn splice(t: Tree, path: Seq<PathView>, leaf: Tree) -> Tree
    decreases path.len(),
{
    if path.len() == 0 {
        leaf
    } else {
        let rest = path.drop_first();
        match path[0] {
            PathView::Index(i) => {
                let ts = stretched(elements(t), i);
                Tree::Array(ts.update(i, splice(ts[i], rest, leaf)))
            },
            PathView::Key(k) => {
                let ms = entries(t);
                let j = find_key(ms, k, 0);
                if j < ms.len() {
                    Tree::Object(ms.update(j, (k, splice(ms[j].1, rest, leaf))))
                } else {
                    Tree::Object(ms.push((k, splice(Tree::Null, rest, leaf))))
                }
            },
        }
    }
}

/// The tree that the first `n` assignments build, one after the other,
/// from `Null`.
pub open spec fn assemble(items: Seq<ItemView>, n: nat) -> Tree
    decreases n,
{
    if n == 0 || n > items.len() {
        Tree::Null
    } else {
        splice(assemble(items, (n - 1) as nat), items[n - 1].path, items[n - 1].value)
    }
}

/// Puts `value` at the end of the steps of `path` from `depth` on.
fn graft(node: &mut Value, path: &Vec<Path>, depth: usize, value: Value)
    requires
        depth <= path.len(),
    ensures
        final(node)@ == splice(old(node)@, path_view(path@).skip(depth as int), value@),
    decreases path.len() - depth,
{
    let ghost steps = path_view(path@).skip(depth as int);
    if depth == path.len() {
        *node = value;
        return ;
    }
    assert(steps.len() > 0);
    assert(steps[0] == path@[depth as int]@);
    assert(steps.drop_first() =~= path_view(path@).skip(depth + 1));
    match &path[depth] {
        Path::Index(i) => {
            let i: usize = *i;
            let is_array = match node {
                Value::Array(_) => true,
                _ => false,
            };
            if !is_array {
                *node = Value::Array(Vec::new());
                assert(array_view(node->Array_0@) =~= Seq::empty());
            }
            let ghost before = elements(old(node)@);
            assert(node@ == Tree::Array(before));
            let ghost start = node->Array_0@;
            assert(array_view(start) == before);
            match node {
                Value::Array(vs) => {
                    assert(vs@ == start);
                    proof {
                        crate::lemma_trees_of(vs@, vs@.len());
                    }
                    assert(array_view(vs@) =~= before + Seq::new(
                        0nat,
                        |j: int| Tree::Null,
                    ));
                    while vs.len() <= i
                        invariant
                            array_view(vs@) == before + Seq::new(
                                (vs.len() - before.len()) as nat,
                                |j: int| Tree::Null,
                            ),
                            before.len() <= vs.len(),
                            vs.len() <= i + 1 || vs.len() == before.len(),
                        decreases i + 1 - vs.len(),
                    {
                        proof {
                            lemma_array_push(vs@, Value::Null);
                        }
                        let ghost prev = array_view(vs@);
                        vs.push(Value::Null);
                        assert(array_view(vs@) =~= before + Seq::new(
                            (vs.len() - before.len()) as nat,
                            |j: int| Tree::Null,
                        ));
                    }
                    assert(array_view(vs@) =~= stretched(before, i as int));
                    let ghost mid = vs@;
                    proof {
                        crate::lemma_trees_of(mid, mid.len());
                    }
                    graft(&mut vs[i], path, depth + 1, value);
                    proof {
                        assert(vs@ =~= mid.update(i as int, vs@[i as int]));
                        lemma_array_update(mid, i as int, vs@[i as int]);
                        assert(array_view(mid)[i as int] == mid[i as int]@);
                        assert(vs@[i as int]@ == splice(mid[i as int]@, steps.drop_first(), value@));
                        assert(array_view(vs@) == stretched(before, i as int).update(
                            i as int,
                            splice(stretched(before, i as int)[i as int], steps.drop_first(), value@),
                        ));
                    }
                },
                _ => {
                    assert(false);
                },
            }
            assert(node@ == splice(old(node)@, steps, value@));
        },
        Path::Key(k) => {
            let is_object = match node {
                Value::Object(_) => true,
                _ => false,
            };
            if !is_object {
                *node = Value::Object(Vec::new());
                assert(object_view(node->Object_0@) =~= Seq::empty());
            }
            let ghost before = entries(old(node)@);
            assert(node@ == Tree::Object(before));
            match node {
                Value::Object(ms) => {
                    assert(object_view(ms@) == before);
                    let j = key_position(ms, k);
                    if j == ms.len() {
                        proof {
                            lemma_object_push(ms@, Member { key: *k, value: Value::Null });
                        }
                        ms.push(Member { key: k.clone(), value: Value::Null });
                    }
                    let ghost mid = ms@;
                    proof {
                        lemma_members_of(mid, mid.len());
                    }
                    graft(&mut ms[j].value, path, depth + 1, value);
                    proof {
                        assert(ms@ =~= mid.update(j as int, ms@[j as int]));
                        lemma_object_update(mid, j as int, ms@[j as int]);
                        assert(object_view(mid)[j as int] == (mid[j as int].key@, mid[j as int].value@));
                        assert(ms@[j as int].key == mid[j as int].key);
                        assert(ms@[j as int].value@ == splice(mid[j as int].value@, steps.drop_first(), value@));
                        let rest = steps.drop_first();
                        if j < before.len() {
                            assert(object_view(ms@) =~= before.update(
                                j as int,
                                (k@, splice(before[j as int].1, rest, value@)),
                            ));
                        } else {
                            assert(object_view(ms@) =~= before.push(
                                (k@, splice(Tree::Null, rest, value@)),
                            ));
                        }
                    }
                },
                _ => {
                    assert(false);
                },
            }
            assert(node@ == splice(old(node)@, steps, value@));
        },
    }
}

/// The first index at which `ms` holds the key, or its length.
fn key_position(ms: &Vec<Member>, key: &String) -> (j: usize)
    ensures
        j == find_key(object_view(ms@), key@, 0),
        j <= ms.len(),
        j < ms.len() ==> ms@[j as int].key@ == key@,
{
    let ghost view = object_view(ms@);
    proof {
        lemma_members_of(ms@, ms@.len());
    }
    let mut i: usize = 0;
    while i < ms.len()
        invariant
            i <= ms.len(),
            view == object_view(ms@),
            view.len() == ms@.len(),
            forall|j: int| 0 <= j < ms@.len() ==> view[j] == ((#[trigger] ms@[j]).key@, ms@[j].value@),
            find_key(view, key@, 0) == find_key(view, key@, i as int),
        decreases ms.len() - i,
    {
        if ms[i].key == *key {
            return i;
        }
        i += 1;
    }
    i
}

impl Value {
    /// Puts the value of `item` at the end of its path, and makes each node
    /// on the way fit the step that enters it.
    pub fn append_item(&mut self, item: Item)
        ensures
            final(self)@ == splice(old(self)@, item@.path, item@.value),
            old(self)@.wf() && item@.value.wf() ==> final(self)@.wf(),
    {
        proof {
            if self@.wf() && item@.value.wf() {
                crate::laws::wellformed::lemma_splice_wf(self@, item@.path, item@.value);
            }
        }
        let Item { path, value } = item;
        assert(path_view(path@).skip(0) =~= path_view(path@));
        graft(self, &path, 0, value);
    }
}

/// Whether the character `c` stands `off` places after `p`.
fn char_is(s: &Vec<char>, p: usize, off: usize, c: char) -> (r: bool)
    requires
        p <= s.len(),
    ensures
        r == holds(s@, p + off, c),
{
    off < s.len() - p && s[p + off] == c
}

/// The number that the two digits `off` places after `p` denote.
fn two_at(s: &Vec<char>, p: usize, off: usize) -> (r: Option<u8>)
    requires
        p <= s.len(),
        off < 100,
    ensures
        match r {
            Some(v) => two(s@, p + off) == Some(v as int) && v <= 99,
            None => two(s@, p + off) is None,
        },
{
    if off + 1 < s.len() - p {
        let a = s[p + off];
        let b = s[p + off + 1];
        if '0' <= a && a <= '9' && '0' <= b && b <= '9' {
            return Some((((a as u32) - 48) * 10 + ((b as u32) - 48)) as u8);
        }
    }
    None
}

/// The number that the four digits at `p` denote.
fn four_at(s: &Vec<char>, p: usize) -> (r: Option<u16>)
    requires
        p <= s.len(),
    ensures
        match r {
            Some(v) => four(s@, p as int) == Some(v as int) && v <= 9999,
            None => four(s@, p as int) is None,
        },
{
    match (two_at(s, p, 0), two_at(s, p, 2)) {
        (Some(a), Some(b)) => Some((a as u16) * 100 + (b as u16)),
        _ => None,
    }
}

/// Reads the date at `p`.
fn parse_date(s: &Vec<char>, p: usize) -> (r: Result<(Date, usize), Fault>)
    requires
        p <= s.len(),
    ensures
        match r {
            Ok((d, q)) => date_at(s@, p as int) == Step::Done(d@, q as int) && p <= q <= s.len(),
            Err(f) => date_at(s@, p as int) == Step::<DateView>::Fail(f.kind, f.at as int) && f.at
                <= s.len(),
        },
{
    let syntax = Fault { kind: ErrorKind::Syntax(Expected::DateTime), at: p };
    match (four_at(s, p), two_at(s, p, 5), two_at(s, p, 8)) {
        (Some(y), Some(m), Some(d)) => {
            if char_is(s, p, 4, '-') && char_is(s, p, 7, '-') {
                match Date::new(y, m, d) {
                    Ok(date) => Ok((date, p + 10)),
                    Err(_) => Err(Fault { kind: ErrorKind::InvalidDateTime, at: p }),
                }
            } else {
                Err(syntax)
            }
        },
        _ => Err(syntax),
    }
}

/// Ten to the power of `n`.
fn power_of_ten(n: usize) -> (r: u32)
    requires
        n <= 8,
    ensures
        r == pow10(n as nat),
        1 <= r <= 100_000_000,
{
    reveal_with_fuel(pow10, 10);
    if n == 0 {
        1
    } else if n == 1 {
        10
    } else if n == 2 {
        100
    } else if n == 3 {
        1_000
    } else if n == 4 {
        10_000
    } else if n == 5 {
        100_000
    } else if n == 6 {
        1_000_000
    } else if n == 7 {
        10_000_000
    } else {
        100_000_000
    }
}

/// A run of up to nine digits denotes a number below ten to their count.
pub proof fn lemma_decimal_bound(ds: Seq<char>)
    requires
        forall|i: int| 0 <= i < ds.len() ==> is_digit(#[trigger] ds[i]),
    ensures
        decimal_value(ds) < pow10(ds.len()),
    decreases ds.len(),
{
    if ds.len() > 0 {
        lemma_decimal_bound(ds.drop_last());
        assert(decimal_value(ds) < pow10(ds.len())) by (nonlinear_arith)
            requires
                decimal_value(ds) == decimal_value(ds.drop_last()) * 10 + digit_value(ds.last()),
                0 <= digit_value(ds.last()) <= 9,
                decimal_value(ds.drop_last()) < pow10((ds.len() - 1) as nat),
                pow10(ds.len()) == 10 * pow10((ds.len() - 1) as nat),
        ;
    }
}

/// Ten to a sum of exponents.
pub proof fn lemma_pow10_add(a: nat, b: nat)
    ensures
        pow10(a + b) == pow10(a) * pow10(b),
    decreases a,
{
    if a > 0 {
        lemma_pow10_add((a - 1) as nat, b);
        assert(pow10(a + b) == 10 * pow10((a - 1 + b) as nat));
        assert(10 * (pow10((a - 1) as nat) * pow10(b)) == (10 * pow10((a - 1) as nat)) * pow10(b))
            by (nonlinear_arith);
    } else {
        assert(pow10(0) * pow10(b) == pow10(b)) by (nonlinear_arith)
            requires
                pow10(0) == 1,
        ;
    }
}

/// Reads the fraction of a second at `p`, where one stands there.
fn parse_fraction(s: &Vec<char>, p: usize) -> (r: (u32, usize))
    requires
        p <= s.len(),
    ensures
        r.1 == second_fraction_end(s@, p as int),
        r.0 == nanoseconds(s@, p as int, r.1 as int),
        r.0 < 1_000_000_000,
        p <= r.1 <= s.len(),
{
    if char_is(s, p, 0, '.') && 1 < s.len() - p && '0' <= s[p + 1] && s[p + 1] <= '9' {
        let e = scan_digits(s, p + 2);
        assert(digits_end(s@, p + 1) == digits_end(s@, p + 2));
        let end: usize = if e - p > 10 {
            p + 10
        } else {
            e
        };
        let ghost run = s@.subrange(p + 1, end as int);
        assert forall|i: int| p + 1 <= i < end implies is_digit(#[trigger] s@[i]) by {}
        assert forall|i: int| 0 <= i < run.len() implies is_digit(#[trigger] run[i]) by {
            assert(run[i] == s@[p + 1 + i]);
        }
        proof {
            lemma_decimal_bound(run);
            lemma_pow10_add(run.len(), (9 - run.len()) as nat);
            reveal_with_fuel(pow10, 10);
        }
        match crate::parser::json::decimal_magnitude(s, p + 1, end) {
            Some(v) => {
                let count: usize = end - (p + 1);
                let scale = power_of_ten(9 - count);
                assert(v * scale < 1_000_000_000) by (nonlinear_arith)
                    requires
                        v < pow10(run.len()),
                        scale == pow10((9 - run.len()) as nat),
                        1_000_000_000 == pow10(run.len()) * pow10((9 - run.len()) as nat),
                        scale >= 1,
                ;
                ((v as u32) * scale, end)
            },
            None => {
                assert(false);
                (0, p)
            },
        }
    } else {
        (0, p)
    }
}

/// Reads the time at `p`.
fn parse_time(s: &Vec<char>, p: usize) -> (r: Result<(Time, usize), Fault>)
    requires
        p <= s.len(),
    ensures
        match r {
            Ok((t, q)) => time_at(s@, p as int) == Step::Done(t@, q as int) && p <= q <= s.len(),
            Err(f) => time_at(s@, p as int) == Step::<TimeView>::Fail(f.kind, f.at as int) && f.at
                <= s.len(),
        },
{
    let syntax = Fault { kind: ErrorKind::Syntax(Expected::DateTime), at: p };
    match (two_at(s, p, 0), two_at(s, p, 3), two_at(s, p, 6)) {
        (Some(h), Some(m), Some(sec)) => {
            if char_is(s, p, 2, ':') && char_is(s, p, 5, ':') {
                let (nanosecond, end) = parse_fraction(s, p + 8);
                match Time::new(h, m, sec, nanosecond) {
                    Ok(time) => Ok((time, end)),
                    Err(_) => Err(Fault { kind: ErrorKind::InvalidDateTime, at: p }),
                }
            } else {
                Err(syntax)
            }
        },
        _ => Err(syntax),
    }
}

/// Reads the offset at `p`, where one stands there.
fn parse_offset(s: &Vec<char>, p: usize) -> (r: Result<(Option<Offset>, usize), Fault>)
    requires
        p <= s.len(),
    ensures
        match r {
            Ok((o, q)) => offset_at(s@, p as int) == Step::Done(offset_view(o), q as int) && p
                <= q <= s.len(),
            Err(f) => offset_at(s@, p as int) == Step::<Option<OffsetView>>::Fail(
                f.kind,
                f.at as int,
            ) && f.at <= s.len(),
        },
{
    let invalid = Fault { kind: ErrorKind::InvalidDateTime, at: p };
    if char_is(s, p, 0, 'Z') {
        match Offset::new(0, 0) {
            Ok(o) => Ok((Some(o), p + 1)),
            Err(_) => Err(invalid),
        }
    } else if (char_is(s, p, 0, '+') || char_is(s, p, 0, '-')) && char_is(s, p, 3, ':') {
        match (two_at(s, p, 1), two_at(s, p, 4)) {
            (Some(h), Some(m)) => {
                let hour: i8 = if char_is(s, p, 0, '-') {
                    -(h as i8)
                } else {
                    h as i8
                };
                match Offset::new(hour, m) {
                    Ok(o) => Ok((Some(o), p + 6)),
                    Err(_) => Err(invalid),
                }
            },
            _ => Ok((None, p)),
        }
    } else {
        Ok((None, p))
    }
}

/// Reads the date and time at `p`.
fn parse_datetime(s: &Vec<char>, p: usize) -> (r: Result<(DateTime, usize), Fault>)
    requires
        p <= s.len(),
    ensures
        match r {
            Ok((d, q)) => datetime_at(s@, p as int) == Step::Done(d@, q as int) && p <= q
                <= s.len(),
            Err(f) => datetime_at(s@, p as int) == Step::<DateTimeView>::Fail(f.kind, f.at as int)
                && f.at <= s.len(),
        },
{
    let invalid = Fault { kind: ErrorKind::InvalidDateTime, at: p };
    if four_at(s, p).is_some() && char_is(s, p, 4, '-') {
        let (date, q) = match parse_date(s, p) {
            Ok(x) => x,
            Err(f) => {
                return Err(f);
            },
        };
        if char_is(s, q, 0, 'T') || char_is(s, q, 0, ' ') {
            let (time, r) = match parse_time(s, q + 1) {
                Ok(x) => x,
                Err(f) => {
                    return Err(f);
                },
            };
            let (offset, e) = match parse_offset(s, r) {
                Ok(x) => x,
                Err(f) => {
                    return Err(f);
                },
            };
            match DateTime::new(Some(date), Some(time), offset) {
                Ok(d) => Ok((d, e)),
                Err(_) => Err(invalid),
            }
        } else {
            let (offset, e) = match parse_offset(s, q) {
                Ok(x) => x,
                Err(f) => {
                    return Err(f);
                },
            };
            match DateTime::new(Some(date), None, offset) {
                Ok(d) => Ok((d, e)),
                Err(_) => Err(invalid),
            }
        }
    } else {
        let (time, e) = match parse_time(s, p) {
            Ok(x) => x,
            Err(f) => {
                return Err(f);
            },
        };
        match DateTime::new(None, Some(time), None) {
            Ok(d) => Ok((d, e)),
            Err(_) => Err(invalid),
        }
    }
}

/// Reads the literal of a leaf at `p`.
pub fn parse_literal(s: &Vec<char>, p: usize) -> (r: Result<(Value, usize), Fault>)
    requires
        p <= s.len(),
    ensures
        match r {
            Ok((v, q)) => literal(s@, p as int) == Step::Done(v@, q as int) && p <= q <= s.len(),
            Err(f) => literal(s@, p as int) == Step::<Tree>::Fail(f.kind, f.at as int) && f.at
                <= s.len(),
        },
{
    if word_at(s, p, &word4('n', 'u', 'l', 'l')) {
        Ok((Value::Null, p + 4))
    } else if word_at(s, p, &word4('t', 'r', 'u', 'e')) {
        Ok((Value::Boolean(true), p + 4))
    } else if word_at(s, p, &word5('f', 'a', 'l', 's', 'e')) {
        Ok((Value::Boolean(false), p + 5))
    } else if word_at(s, p, &word3('N', 'a', 'N')) {
        Ok((Value::Float(Float::Nan), p + 3))
    } else if word_at(s, p, &word3('i', 'n', 'f')) {
        Ok((Value::Float(Float::Infinity), p + 3))
    } else if word_at(s, p, &word4('-', 'i', 'n', 'f')) {
        Ok((Value::Float(Float::NegInfinity), p + 4))
    } else if word_at(s, p, &word2('[', ']')) {
        let v = Value::Array(Vec::new());
        assert(v@ == Tree::Array(Seq::empty()));
        Ok((v, p + 2))
    } else if word_at(s, p, &word2('{', '}')) {
        let v = Value::Object(Vec::new());
        assert(v@ == Tree::Object(Seq::empty()));
        Ok((v, p + 2))
    } else if char_is(s, p, 0, '"') {
        match parse_string_body(s, p + 1, '"', Dialect::Json) {
            Ok((cs, q)) => Ok((Value::String(string_of(&cs)), q)),
            Err(f) => Err(f),
        }
    } else if (four_at(s, p).is_some() && char_is(s, p, 4, '-')) || (two_at(s, p, 0).is_some()
        && char_is(s, p, 2, ':')) {
        match parse_datetime(s, p) {
            Ok((d, q)) => Ok((Value::DateTime(d), q)),
            Err(f) => Err(f),
        }
    } else if p < s.len() && (s[p] == '-' || ('0' <= s[p] && s[p] <= '9')) {
        parse_number(s, p, Dialect::Json)
    } else {
        Err(Fault { kind: ErrorKind::Syntax(Expected::Value), at: p })
    }
}

/// The position of the first character from `p` on at which the delimiter
/// or the token of assignment stands.
fn scan_segment(s: &Vec<char>, p: usize, delimiter: &Vec<char>, equal: &Vec<char>, Ghost(root): Ghost<Seq<char>>) -> (e:
    usize)
    requires
        p <= s.len(),
    ensures
        e == segment_end(s@, p as int, Tokens { root, delimiter: delimiter@, equal: equal@ }),
        p <= e <= s.len(),
{
    let ghost tokens = Tokens { root, delimiter: delimiter@, equal: equal@ };
    let mut i: usize = p;
    while i < s.len() && !word_at(s, i, delimiter) && !word_at(s, i, equal)
        invariant
            p <= i <= s.len(),
            tokens == (Tokens { root, delimiter: delimiter@, equal: equal@ }),
            segment_end(s@, p as int, tokens) == segment_end(s@, i as int, tokens),
        decreases s.len() - i,
    {
        i += 1;
    }
    i
}

/// The step that the text from `from` to `to` names.
fn segment(s: &Vec<char>, from: usize, to: usize) -> (r: Path)
    requires
        from < to <= s.len(),
    ensures
        r@ == segment_of(s@.subrange(from as int, to as int)),
{
    let ghost t = s@.subrange(from as int, to as int);
    let mut digits = true;
    let mut i: usize = from;
    while i < to
        invariant
            from <= i <= to <= s.len(),
            t == s@.subrange(from as int, to as int),
            digits == (forall|j: int| 0 <= j < i - from ==> is_digit(#[trigger] t[j])),
        decreases to - i,
    {
        if !('0' <= s[i] && s[i] <= '9') {
            digits = false;
            assert(t[i - from] == s@[i as int]);
        }
        i += 1;
    }
    if digits && (to - from == 1 || s[from] != '0') {
        assert forall|j: int| from <= j < to implies is_digit(#[trigger] s@[j]) by {
            assert(t[j - from] == s@[j]);
        }
        match crate::parser::json::decimal_magnitude(s, from, to) {
            Some(v) => {
                if v <= usize::MAX as u128 {
                    return Path::Index(v as usize);
                }
            },
            None => {},
        }
    }
    let mut text: Vec<char> = Vec::new();
    let mut k: usize = from;
    while k < to
        invariant
            from <= k <= to <= s.len(),
            text@ == s@.subrange(from as int, k as int),
        decreases to - k,
    {
        text.push(s[k]);
        assert(text@ =~= s@.subrange(from as int, k + 1));
        k += 1;
    }
    Path::Key(string_of(&text))
}

/// Reads the steps of a path from `p` on, up to and with the token of
/// assignment.
fn parse_segments(s: &Vec<char>, p: usize, delimiter: &Vec<char>, equal: &Vec<char>, Ghost(root): Ghost<Seq<char>>) -> (r:
    Result<(Vec<Path>, usize), Fault>)
    requires
        p <= s.len(),
    ensures
        match r {
            Ok((path, q)) => segments(
                s@,
                p as int,
                Tokens { root, delimiter: delimiter@, equal: equal@ },
                Seq::empty(),
            ) == Step::Done(path_view(path@), q as int) && p <= q <= s.len(),
            Err(f) => segments(
                s@,
                p as int,
                Tokens { root, delimiter: delimiter@, equal: equal@ },
                Seq::empty(),
            ) == Step::<Seq<PathView>>::Fail(f.kind, f.at as int) && f.at <= s.len(),
        },
{
    let ghost tokens = Tokens { root, delimiter: delimiter@, equal: equal@ };
    let mut acc: Vec<Path> = Vec::new();
    let mut i: usize = p;
    assert(path_view(acc@) =~= Seq::empty());
    loop
        invariant
            p <= i <= s.len(),
            tokens == (Tokens { root, delimiter: delimiter@, equal: equal@ }),
            segments(s@, p as int, tokens, Seq::empty()) == segments(
                s@,
                i as int,
                tokens,
                path_view(acc@),
            ),
        decreases s.len() - i,
    {
        let e = scan_segment(s, i, delimiter, equal, Ghost(root));
        if e == i {
            if acc.len() == 0 && word_at(s, i, equal) {
                return Ok((acc, i + equal.len()));
            } else {
                return Err(Fault { kind: ErrorKind::Syntax(Expected::Segment), at: i });
            }
        }
        let step = segment(s, i, e);
        let ghost before = path_view(acc@);
        acc.push(step);
        assert(path_view(acc@) =~= before.push(step@));
        if word_at(s, e, equal) {
            return Ok((acc, e + equal.len()));
        } else if word_at(s, e, delimiter) {
            i = e + delimiter.len();
        } else {
            return Err(Fault { kind: ErrorKind::Syntax(Expected::Equal), at: e });
        }
    }
}

/// Reads one assignment at `p`.
fn parse_assignment(s: &Vec<char>, p: usize, root: &Vec<char>, delimiter: &Vec<char>, equal: &Vec<char>) -> (r:
    Result<(Item, usize), Fault>)
    requires
        p <= s.len(),
    ensures
        match r {
            Ok((item, q)) => assignment(
                s@,
                p as int,
                Tokens { root: root@, delimiter: delimiter@, equal: equal@ },
            ) == Step::Done(item@, q as int) && p <= q <= s.len(),
            Err(f) => assignment(
                s@,
                p as int,
                Tokens { root: root@, delimiter: delimiter@, equal: equal@ },
            ) == Step::<ItemView>::Fail(f.kind, f.at as int) && f.at <= s.len(),
        },
{
    if !word_at(s, p, root) {
        return Err(Fault { kind: ErrorKind::Syntax(Expected::Root), at: p });
    }
    let a = p + root.len();
    if !word_at(s, a, delimiter) {
        return Err(Fault { kind: ErrorKind::Syntax(Expected::Delimiter), at: a });
    }
    let b = a + delimiter.len();
    let (path, q) = match parse_segments(s, b, delimiter, equal, Ghost(root@)) {
        Ok(x) => x,
        Err(f) => {
            return Err(f);
        },
    };
    match parse_literal(s, q) {
        Ok((value, e)) => Ok((Item { path, value }, e)),
        Err(f) => Err(f),
    }
}

/// The views of assignments.
pub open spec fn items_view(items: Seq<Item>) -> Seq<ItemView> {
    Seq::new(items.len(), |i: int| items[i]@)
}

/// Reads the assignments of a text, one per line.
pub fn parse_assignments(s: &Vec<char>, root: &Vec<char>, delimiter: &Vec<char>, equal: &Vec<char>) -> (r:
    Result<(Vec<Item>, usize), Fault>)
    ensures
        match r {
            Ok((items, end)) => assignments(
                s@,
                0,
                Tokens { root: root@, delimiter: delimiter@, equal: equal@ },
                Seq::empty(),
            ) == Step::Done(items_view(items@), end as int) && end <= s.len(),
            Err(f) => assignments(
                s@,
                0,
                Tokens { root: root@, delimiter: delimiter@, equal: equal@ },
                Seq::empty(),
            ) == Step::<Seq<ItemView>>::Fail(f.kind, f.at as int) && f.at <= s.len(),
        },
{
    let ghost tokens = Tokens { root: root@, delimiter: delimiter@, equal: equal@ };
    let mut acc: Vec<Item> = Vec::new();
    let mut i: usize = 0;
    assert(items_view(acc@) =~= Seq::empty());
    loop
        invariant
            i <= s.len(),
            tokens == (Tokens { root: root@, delimiter: delimiter@, equal: equal@ }),
            assignments(s@, 0, tokens, Seq::empty()) == assignments(
                s@,
                i as int,
                tokens,
                items_view(acc@),
            ),
        decreases s.len() - i,
    {
        if i >= s.len() {
            return Ok((acc, i));
        }
        if s[i] == '\n' {
            i += 1;
        } else {
            let (item, e) = match parse_assignment(s, i, root, delimiter, equal) {
                Ok(x) => x,
                Err(f) => {
                    return Err(f);
                },
            };
            let ghost before = items_view(acc@);
            acc.push(item);
            assert(items_view(acc@) =~= before.push(acc@[acc@.len() - 1]@));
            if e >= s.len() {
                return Ok((acc, e));
            } else if s[e] == '\n' {
                i = e + 1;
            } else {
                return Err(Fault { kind: ErrorKind::Syntax(Expected::LineEnd), at: e });
            }
        }
    }
}

/// Builds the tree of the assignments, one after the other, from `Null`.
pub fn build(items: Vec<Item>) -> (v: Value)
    ensures
        v@ == assemble(items_view(items@), items@.len()),
{
    let ghost all = items_view(items@);
    let mut v = Value::Null;
    for item in it: items
        invariant
            it.seq() == items@,
            all == items_view(items@),
            v@ == assemble(all, it.index() as nat),
    {
        v.append_item(item);
    }
    v
}

/// Reads a text of assignments with the given tokens.
pub fn parse_with(s: &str, root: &str, delimiter: &str, equal: &str) -> (r: Result<
    Value,
    ParseError,
>)
    ensures
        result_view(r) == parse_lines(
            s@,
            Tokens { root: root@, delimiter: delimiter@, equal: equal@ },
        ),
        r matches Ok(v) ==> v@.wf(),
{
    proof {
        crate::laws::wellformed::lemma_parse_lines_wf(
            s@,
            Tokens { root: root@, delimiter: delimiter@, equal: equal@ },
        );
    }
    let cs = chars_of(s);
    let root = chars_of(root);
    let delimiter = chars_of(delimiter);
    let equal = chars_of(equal);
    match parse_assignments(&cs, &root, &delimiter, &equal) {
        Ok((items, _)) => Ok(build(items)),
        Err(f) => Err(locate(&cs, f.kind, f.at)),
    }
}

/// Line parser: rebuilds a tree from assignments.
#[derive(Clone, Debug, PartialEq, Eq)]
pub struct LineParser {
    root: String,
    delimiter: String,
    equal: String,
}

impl Default for LineParser {
    fn default() -> (r: Self)
        ensures
            r.tokens() == default_tokens(),
    {
        let r = Self { root: "$".to_string(), delimiter: ".".to_string(), equal: " = ".to_string() };
        proof {
            reveal_strlit("$");
            reveal_strlit(".");
            reveal_strlit(" = ");
            assert(r.root@ =~= seq!['$']);
            assert(r.delimiter@ =~= seq!['.']);
            assert(r.equal@ =~= seq![' ', '=', ' ']);
        }
        r
    }
}

impl LineParser {
    /// The tokens that this parser reads.
    pub closed spec fn tokens(&self) -> Tokens {
        Tokens { root: self.root@, delimiter: self.delimiter@, equal: self.equal@ }
    }

    /// A parser with the root `$`, the delimiter `.` and ` = ` between a
    /// path and its value.
    pub fn new() -> (r: Self)
        ensures
            r.tokens() == default_tokens(),
    {
        Self::default()
    }

    /// Sets what stands for the root.
    pub fn root(&mut self, root: String) -> (r: &mut Self)
        ensures
            *final(self) == *final(r),
            r.tokens() == (Tokens { root: root@, ..old(self).tokens() }),
    {
        self.root = root;
        self
    }

    /// Sets what stands between two steps of a path.
    pub fn delimiter(&mut self, delimiter: String) -> (r: &mut Self)
        ensures
            *final(self) == *final(r),
            r.tokens() == (Tokens { delimiter: delimiter@, ..old(self).tokens() }),
    {
        self.delimiter = delimiter;
        self
    }

    /// Sets what stands between a path and its value.
    pub fn equal(&mut self, equal: String) -> (r: &mut Self)
        ensures
            *final(self) == *final(r),
            r.tokens() == (Tokens { equal: equal@, ..old(self).tokens() }),
    {
        self.equal = equal;
        self
    }
}

impl Parser for LineParser {
    /// What `s` stands for as a text of assignments.
    open spec fn parsed(&self, s: Seq<char>) -> Result<Tree, ParseError> {
        parse_lines(s, self.tokens())
    }

    fn parse(&self, s: &str) -> (r: Result<Value, ParseError>) {
        parse_with(s, self.root.as_str(), self.delimiter.as_str(), self.equal.as_str())
    }
}

} // verus!
