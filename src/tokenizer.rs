//! Locating the whitespace-delimited tokens of a header, with `#` comments skipped,
//! and reading unsigned decimal numbers from them.
use vstd::prelude::*;

verus! {

/// Space, tab, line feed and carriage return.
pub open spec fn is_ws(b: u8) -> bool {
    b == 0x20 || b == 0x09 || b == 0x0a || b == 0x0d
}

/// Opens a comment that runs to the end of its line.
pub const COMMENT: u8 = 0x23;

pub const NEWLINE: u8 = 0x0a;

/// A kind of byte searched for.
#[derive(Clone, Copy, Debug, PartialEq, Eq, Structural)]
pub enum ByteClass {
    /// Anything but whitespace.
    Content,
    /// A line feed.
    Newline,
    /// What ends a token: whitespace or the start of a comment.
    Boundary,
}

pub open spec fn in_class(b: u8, class: ByteClass) -> bool {
    match class {
        ByteClass::Content => !is_ws(b),
        ByteClass::Newline => b == NEWLINE,
        ByteClass::Boundary => is_ws(b) || b == COMMENT,
    }
}

/// The first position at or after `i` that holds a byte of `class`.
pub open spec fn first_match(s: Seq<u8>, i: int, class: ByteClass) -> Option<int>
    decreases s.len() - i,
{
    if i < 0 || i >= s.len() {
        None
    } else if in_class(s[i], class) {
        Some(i)
    } else {
        first_match(s, i + 1, class)
    }
}

/// The first position at or after `i` that starts a token, skipping whitespace and
/// comments; `in_comment` says whether `i` lies inside a comment.
pub open spec fn content_from(s: Seq<u8>, i: int, in_comment: bool) -> Option<int>
    decreases s.len() - i,
{
    if i < 0 || i >= s.len() {
        None
    } else if in_comment {
        content_from(s, i + 1, s[i] != NEWLINE)
    } else if is_ws(s[i]) {
        content_from(s, i + 1, false)
    } else if s[i] == COMMENT {
        content_from(s, i + 1, true)
    } else {
        Some(i)
    }
}

pub open spec fn as_pos(r: Option<usize>) -> Option<int> {
    match r {
        Some(i) => Some(i as int),
        None => None,
    }
}

pub proof fn lemma_first_match_bounds(s: Seq<u8>, i: int, class: ByteClass)
    ensures
        first_match(s, i, class) matches Some(k) ==> i <= k < s.len() && in_class(s[k], class),
    decreases s.len() - i,
{
    if 0 <= i < s.len() && !in_class(s[i], class) {
        lemma_first_match_bounds(s, i + 1, class);
    }
}

pub proof fn lemma_content_bounds(s: Seq<u8>, i: int, in_comment: bool)
    ensures
        content_from(s, i, in_comment) matches Some(k) ==> i <= k < s.len() && !is_ws(s[k])
            && s[k] != COMMENT,
    decreases s.len() - i,
{
    if 0 <= i < s.len() {
        lemma_content_bounds(s, i + 1, true);
        lemma_content_bounds(s, i + 1, false);
    }
}

/// Skipping to the next non-whitespace byte does not change where content starts.
proof fn lemma_skip_whitespace(s: Seq<u8>, i: int)
    requires
        0 <= i,
    ensures
        first_match(s, i, ByteClass::Content) matches Some(k) ==> content_from(s, i, false)
            == content_from(s, k, false),
        first_match(s, i, ByteClass::Content) is None ==> content_from(s, i, false) is None,
    decreases s.len() - i,
{
    if i < s.len() && is_ws(s[i]) {
        lemma_skip_whitespace(s, i + 1);
    }
}

/// Inside a comment, content starts after its line feed.
proof fn lemma_skip_comment(s: Seq<u8>, i: int)
    requires
        0 <= i,
    ensures
        first_match(s, i, ByteClass::Newline) matches Some(k) ==> content_from(s, i, true)
            == content_from(s, k + 1, false),
        first_match(s, i, ByteClass::Newline) is None ==> content_from(s, i, true) is None,
    decreases s.len() - i,
{
    if i < s.len() && s[i] != NEWLINE {
        lemma_skip_comment(s, i + 1);
    }
}

fn in_class_exec(b: u8, class: ByteClass) -> (r: bool)
    ensures
        r == in_class(b, class),
{
    let ws = b == 0x20 || b == 0x09 || b == 0x0a || b == 0x0d;
    match class {
        ByteClass::Content => !ws,
        ByteClass::Newline => b == NEWLINE,
        ByteClass::Boundary => ws || b == COMMENT,
    }
}

/// The first index at or after `skip` whose byte is of `class`.
pub fn find_index(slice: &[u8], skip: usize, class: ByteClass) -> (r: Option<usize>)
    ensures
        as_pos(r) == first_match(slice@, skip as int, class),
        r matches Some(k) ==> skip <= k < slice@.len() && in_class(slice@[k as int], class),
{
    let mut i = skip;
    while i < slice.len()
        invariant
            skip <= i,
            first_match(slice@, skip as int, class) == first_match(slice@, i as int, class),
        decreases slice@.len() - i,
    {
        if in_class_exec(slice[i], class) {
            return Some(i);
        }
        i = i + 1;
    }
    None
}

/// The index of the first byte of the next token at or after `skip`.
pub fn get_content_start_index(slice: &[u8], skip: usize) -> (r: Option<usize>)
    ensures
        as_pos(r) == content_from(slice@, skip as int, false),
        r matches Some(k) ==> skip <= k < slice@.len(),
{
    let s = Ghost(slice@);
    proof {
        lemma_skip_whitespace(s@, skip as int);
    }
    let mut pos = match find_index(slice, skip, ByteClass::Content) {
        Some(p) => p,
        None => return None,
    };
    while slice[pos] == COMMENT
        invariant
            skip <= pos < slice@.len(),
            s@ == slice@,
            !is_ws(slice@[pos as int]),
            content_from(s@, skip as int, false) == content_from(s@, pos as int, false),
        decreases slice@.len() - pos,
    {
        proof {
            lemma_skip_comment(s@, pos + 1);
        }
        let newline = match find_index(slice, pos + 1, ByteClass::Newline) {
            Some(n) => n,
            None => return None,
        };
        proof {
            lemma_skip_whitespace(s@, newline + 1);
        }
        pos = match find_index(slice, newline + 1, ByteClass::Content) {
            Some(p) => p,
            None => return None,
        };
    }
    Some(pos)
}

/// The index of the first byte at or after `skip` that ends a token.
pub fn get_content_end_index(slice: &[u8], skip: usize) -> (r: Option<usize>)
    ensures
        as_pos(r) == first_match(slice@, skip as int, ByteClass::Boundary),
        r matches Some(k) ==> skip <= k < slice@.len() && (is_ws(slice@[k as int])
            || slice@[k as int] == COMMENT),
{
    find_index(slice, skip, ByteClass::Boundary)
}

pub open spec fn is_digit(b: u8) -> bool {
    0x30 <= b <= 0x39
}

/// The number that a run of decimal digits writes.
pub open spec fn decimal_value(t: Seq<u8>) -> nat
    decreases t.len(),
{
    if t.len() == 0 {
        0
    } else {
        decimal_value(t.drop_last()) * 10 + (t.last() - 0x30) as nat
    }
}

/// The value of `t` read as an unsigned decimal number of at most `limit`: one or more
/// digits, with no sign.
pub open spec fn decimal(t: Seq<u8>, limit: nat) -> Option<nat> {
    if t.len() > 0 && (forall|i: int| 0 <= i < t.len() ==> is_digit(#[trigger] t[i]))
        && decimal_value(t) <= limit {
        Some(decimal_value(t))
    } else {
        None
    }
}

proof fn lemma_decimal_prefix(t: Seq<u8>, k: int)
    requires
        0 <= k <= t.len(),
        forall|i: int| 0 <= i < t.len() ==> is_digit(#[trigger] t[i]),
    ensures
        decimal_value(t.subrange(0, k)) <= decimal_value(t),
    decreases t.len(),
{
    if k == t.len() {
        assert(t.subrange(0, k) =~= t);
    } else {
        let u = t.drop_last();
        assert(u.subrange(0, k) =~= t.subrange(0, k));
        lemma_decimal_prefix(u, k);
    }
}

/// The value of `slice[start..end]` as an unsigned decimal number of at most `limit`.
pub fn parse_decimal(slice: &[u8], start: usize, end: usize, limit: usize) -> (r: Option<usize>)
    requires
        start <= end <= slice@.len(),
    ensures
        r matches Some(v) ==> decimal(slice@.subrange(start as int, end as int), limit as nat)
            == Some(v as nat),
        r is None ==> decimal(slice@.subrange(start as int, end as int), limit as nat) is None,
{
    let ghost t = slice@.subrange(start as int, end as int);
    if start == end {
        return None;
    }
    let mut acc: usize = 0;
    let mut i = start;
    while i < end
        invariant
            start <= i <= end <= slice@.len(),
            t == slice@.subrange(start as int, end as int),
            forall|j: int| start <= j < i ==> is_digit(#[trigger] slice@[j]),
            acc as nat == decimal_value(slice@.subrange(start as int, i as int)),
            acc <= limit,
        decreases end - i,
    {
        let c = slice[i];
        let ghost prefix = slice@.subrange(start as int, i + 1);
        proof {
            assert(prefix.drop_last() =~= slice@.subrange(start as int, i as int));
            assert(t[i - start] == c);
        }
        if c < 0x30 || c > 0x39 {
            return None;
        }
        let d = (c - 0x30) as usize;
        if acc > limit / 10 || d > limit - acc * 10 {
            proof {
                assert(acc * 10 + d > limit) by (nonlinear_arith)
                    requires
                        acc > limit / 10 || d > limit - acc * 10,
                        acc <= limit / 10 ==> acc * 10 <= limit,
                ;
                if forall|j: int| 0 <= j < t.len() ==> is_digit(#[trigger] t[j]) {
                    assert(t.subrange(0, i + 1 - start) =~= prefix);
                    lemma_decimal_prefix(t, i + 1 - start);
                }
            }
            return None;
        }
        acc = acc * 10 + d;
        i = i + 1;
    }
    proof {
        assert(slice@.subrange(start as int, i as int) =~= t);
        assert forall|j: int| 0 <= j < t.len() implies is_digit(#[trigger] t[j]) by {
            assert(t[j] == slice@[start + j]);
        }
    }
    Some(acc)
}

} // verus!
