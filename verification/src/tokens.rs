//! Byte-level tokenization of line-oriented symbol text.
//!
//! A record line is a sequence of space-separated fields; trailing name
//! fields may contain spaces and run to the end of the line. The
//! specification functions here define the exact splitting the parser is
//! proved against.

use vstd::prelude::*;

verus! {

/// Field separators and ignorable padding: space, tab and carriage return.
pub open spec fn is_space_byte(b: u8) -> bool {
    b == 32 || b == 9 || b == 13
}

/// `s` with its leading separator bytes removed.
pub open spec fn skip_spaces(s: Seq<u8>) -> Seq<u8>
    decreases s.len(),
{
    if s.len() > 0 && is_space_byte(s[0]) {
        skip_spaces(s.skip(1))
    } else {
        s
    }
}

/// Length of the separator-free prefix of `s`.
pub open spec fn token_len(s: Seq<u8>) -> int
    decreases s.len(),
{
    if s.len() == 0 || is_space_byte(s[0]) {
        0
    } else {
        1 + token_len(s.skip(1))
    }
}

pub proof fn lemma_token_len_bound(s: Seq<u8>)
    ensures
        0 <= token_len(s) <= s.len(),
    decreases s.len(),
{
    if s.len() > 0 && !is_space_byte(s[0]) {
        lemma_token_len_bound(s.skip(1));
    }
}

/// The first space-separated field of `s`.
pub open spec fn first_token(s: Seq<u8>) -> Seq<u8> {
    skip_spaces(s).take(token_len(skip_spaces(s)))
}

/// What remains of `s` after its first field.
pub open spec fn rest_after_token(s: Seq<u8>) -> Seq<u8> {
    skip_spaces(s).skip(token_len(skip_spaces(s)))
}

/// `s` with trailing separator bytes removed.
pub open spec fn trim_trailing(s: Seq<u8>) -> Seq<u8>
    decreases s.len(),
{
    if s.len() > 0 && is_space_byte(s.last()) {
        trim_trailing(s.drop_last())
    } else {
        s
    }
}

/// A trailing free-text field: the rest of the line with surrounding
/// separators removed.
pub open spec fn trimmed_rest(s: Seq<u8>) -> Seq<u8> {
    trim_trailing(skip_spaces(s))
}

/// The characters an ASCII byte sequence denotes.
pub open spec fn ascii_chars(s: Seq<u8>) -> Seq<char> {
    Seq::new(s.len(), |i: int| s[i] as char)
}

/// Every byte of `s` is ASCII.
pub open spec fn all_ascii(s: Seq<u8>) -> bool {
    forall|i: int| 0 <= i < s.len() ==> #[trigger] s[i] < 128
}

/// Advances `pos` past separator bytes.
pub fn skip_ws(line: &[u8], pos: usize) -> (r: usize)
    requires
        pos <= line@.len(),
    ensures
        pos <= r <= line@.len(),
        skip_spaces(line@.skip(pos as int)) == line@.skip(r as int),
        r < line@.len() ==> !is_space_byte(line@[r as int]),
{
    let n = line.len();
    let mut i: usize = pos;
    while i < n && (line[i] == 32 || line[i] == 9 || line[i] == 13)
        invariant
            pos <= i <= n,
            n == line@.len(),
            skip_spaces(line@.skip(pos as int)) == skip_spaces(line@.skip(i as int)),
        decreases n - i,
    {
        proof {
            assert(line@.skip(i as int).skip(1) =~= line@.skip(i + 1));
        }
        i = i + 1;
    }
    proof {
        if i < n {
            assert(skip_spaces(line@.skip(i as int)) == line@.skip(i as int));
        } else {
            assert(line@.skip(i as int) =~= Seq::<u8>::empty());
        }
    }
    i
}

/// Advances `pos` to the end of the current separator-free field.
pub fn token_end(line: &[u8], pos: usize) -> (r: usize)
    requires
        pos <= line@.len(),
    ensures
        pos <= r <= line@.len(),
        token_len(line@.skip(pos as int)) == r - pos,
{
    let n = line.len();
    let mut i: usize = pos;
    while i < n && !(line[i] == 32 || line[i] == 9 || line[i] == 13)
        invariant
            pos <= i <= n,
            n == line@.len(),
            token_len(line@.skip(pos as int)) == (i - pos) + token_len(line@.skip(i as int)),
        decreases n - i,
    {
        proof {
            assert(line@.skip(i as int).skip(1) =~= line@.skip(i + 1));
            lemma_token_len_bound(line@.skip(i + 1));
        }
        i = i + 1;
    }
    proof {
        if i < n {
            assert(token_len(line@.skip(i as int)) == 0);
        } else {
            assert(line@.skip(i as int) =~= Seq::<u8>::empty());
        }
    }
    i
}

/// Finds the first space-separated field at or after `pos`: its bounds are
/// returned, and the remainder of the line starts at the field's end.
pub fn next_token(line: &[u8], pos: usize) -> (r: (usize, usize))
    requires
        pos <= line@.len(),
    ensures
        pos <= r.0 <= r.1 <= line@.len(),
        line@.subrange(r.0 as int, r.1 as int) == first_token(line@.skip(pos as int)),
        line@.skip(r.1 as int) == rest_after_token(line@.skip(pos as int)),
{
    let ts = skip_ws(line, pos);
    let te = token_end(line, ts);
    proof {
        let s = line@.skip(pos as int);
        lemma_token_len_bound(skip_spaces(s));
        assert(skip_spaces(s) == line@.skip(ts as int));
        assert(token_len(line@.skip(ts as int)) == te - ts);
        assert(line@.skip(ts as int).take(te - ts) =~= line@.subrange(ts as int, te as int));
        assert(line@.skip(ts as int).skip(te - ts) =~= line@.skip(te as int));
    }
    (ts, te)
}

/// Finds the bounds of the trailing free-text field at or after `pos`.
pub fn rest_bounds(line: &[u8], pos: usize) -> (r: (usize, usize))
    requires
        pos <= line@.len(),
    ensures
        pos <= r.0 <= r.1 <= line@.len(),
        line@.subrange(r.0 as int, r.1 as int) == trimmed_rest(line@.skip(pos as int)),
{
    let ts = skip_ws(line, pos);
    let n = line.len();
    let mut e: usize = n;
    while e > ts && (line[e - 1] == 32 || line[e - 1] == 9 || line[e - 1] == 13)
        invariant
            ts <= e <= n,
            n == line@.len(),
            skip_spaces(line@.skip(pos as int)) == line@.skip(ts as int),
            trim_trailing(line@.skip(ts as int)) == trim_trailing(
                line@.subrange(ts as int, e as int),
            ),
        decreases e,
    {
        proof {
            let cur = line@.subrange(ts as int, e as int);
            assert(cur.len() > 0 && is_space_byte(cur.last()));
            assert(cur.drop_last() =~= line@.subrange(ts as int, e - 1));
        }
        e = e - 1;
    }
    proof {
        let cur = line@.subrange(ts as int, e as int);
        if e > ts {
            assert(!is_space_byte(cur.last()));
            assert(trim_trailing(cur) == cur);
        } else {
            assert(cur =~= Seq::<u8>::empty());
        }
        assert(line@.skip(ts as int) =~= line@.subrange(ts as int, line@.len() as int));
    }
    (ts, e)
}

/// Index of the first newline byte of `s`, or -1 when there is none.
pub open spec fn find_nl(s: Seq<u8>) -> int
    decreases s.len(),
{
    if s.len() == 0 {
        -1
    } else if s[0] == 10 {
        0
    } else if find_nl(s.skip(1)) == -1 {
        -1
    } else {
        1 + find_nl(s.skip(1))
    }
}

pub proof fn lemma_find_nl(s: Seq<u8>)
    ensures
        -1 <= find_nl(s) < s.len(),
        find_nl(s) >= 0 ==> s[find_nl(s)] == 10 && (forall|j: int|
            0 <= j < find_nl(s) ==> s[j] != 10),
        find_nl(s) == -1 ==> forall|j: int| 0 <= j < s.len() ==> s[j] != 10,
    decreases s.len(),
{
    if s.len() > 0 && s[0] != 10 {
        lemma_find_nl(s.skip(1));
        let f = find_nl(s.skip(1));
        if f >= 0 {
            assert forall|j: int| 0 <= j < f + 1 implies s[j] != 10 by {
                if j > 0 {
                    assert(s.skip(1)[j - 1] != 10);
                }
            }
        } else {
            assert forall|j: int| 0 <= j < s.len() implies s[j] != 10 by {
                if j > 0 {
                    assert(s.skip(1)[j - 1] != 10);
                }
            }
        }
    }
}

/// A scan that finds no newline before `k`, and one at `k` unless `k` is
/// the end, has found the first newline.
pub proof fn lemma_find_nl_eq(s: Seq<u8>, k: int)
    requires
        0 <= k <= s.len(),
        forall|j: int| 0 <= j < k ==> s[j] != 10,
        k < s.len() ==> s[k] == 10,
    ensures
        find_nl(s) == if k == s.len() {
            -1int
        } else {
            k
        },
{
    lemma_find_nl(s);
}

/// `s` split at newline bytes; the separators are dropped, and a trailing
/// newline yields a final empty line.
pub open spec fn lines_of(s: Seq<u8>) -> Seq<Seq<u8>>
    decreases s.len(),
{
    let f = find_nl(s);
    if f < 0 || f >= s.len() {
        seq![s]
    } else {
        seq![s.take(f)] + lines_of(s.skip(f + 1))
    }
}

/// Checks that every byte of `v` is ASCII.
pub fn check_ascii(v: &[u8]) -> (r: bool)
    ensures
        r == all_ascii(v@),
{
    let n = v.len();
    let mut i: usize = 0;
    while i < n
        invariant
            0 <= i <= n,
            n == v@.len(),
            forall|j: int| 0 <= j < i ==> #[trigger] v@[j] < 128,
        decreases n - i,
    {
        if v[i] >= 128 {
            return false;
        }
        i = i + 1;
    }
    true
}

/// The bytes of the `MODULE` keyword.
pub open spec fn module_keyword() -> Seq<u8> {
    seq![77u8, 79u8, 68u8, 85u8, 76u8, 69u8]
}

/// Tests a field against the `MODULE` keyword.
pub fn is_kw_module(t: &[u8]) -> (r: bool)
    ensures
        r == (t@ == module_keyword()),
{
    let r = t.len() == 6 && t[0] == 77 && t[1] == 79 && t[2] == 68 && t[3] == 85 && t[4] == 76
        && t[5] == 69;
    proof {
        if r {
            assert(t@ =~= module_keyword());
        }
    }
    r
}

/// The bytes of the `FUNC` keyword.
pub open spec fn func_keyword() -> Seq<u8> {
    seq![70u8, 85u8, 78u8, 67u8]
}

/// Tests a field against the `FUNC` keyword.
pub fn is_kw_func(t: &[u8]) -> (r: bool)
    ensures
        r == (t@ == func_keyword()),
{
    let r = t.len() == 4 && t[0] == 70 && t[1] == 85 && t[2] == 78 && t[3] == 67;
    proof {
        if r {
            assert(t@ =~= func_keyword());
        }
    }
    r
}

/// The bytes of the `PUBLIC` keyword.
pub open spec fn public_keyword() -> Seq<u8> {
    seq![80u8, 85u8, 66u8, 76u8, 73u8, 67u8]
}

/// Tests a field against the `PUBLIC` keyword.
pub fn is_kw_public(t: &[u8]) -> (r: bool)
    ensures
        r == (t@ == public_keyword()),
{
    let r = t.len() == 6 && t[0] == 80 && t[1] == 85 && t[2] == 66 && t[3] == 76 && t[4] == 73
        && t[5] == 67;
    proof {
        if r {
            assert(t@ =~= public_keyword());
        }
    }
    r
}

/// The bytes of the `FILE` keyword.
pub open spec fn file_keyword() -> Seq<u8> {
    seq![70u8, 73u8, 76u8, 69u8]
}

/// Tests a field against the `FILE` keyword.
pub fn is_kw_file(t: &[u8]) -> (r: bool)
    ensures
        r == (t@ == file_keyword()),
{
    let r = t.len() == 4 && t[0] == 70 && t[1] == 73 && t[2] == 76 && t[3] == 69;
    proof {
        if r {
            assert(t@ =~= file_keyword());
        }
    }
    r
}

/// The bytes of the `STACK` keyword.
pub open spec fn stack_keyword() -> Seq<u8> {
    seq![83u8, 84u8, 65u8, 67u8, 75u8]
}

/// Tests a field against the `STACK` keyword.
pub fn is_kw_stack(t: &[u8]) -> (r: bool)
    ensures
        r == (t@ == stack_keyword()),
{
    let r = t.len() == 5 && t[0] == 83 && t[1] == 84 && t[2] == 65 && t[3] == 67 && t[4] == 75;
    proof {
        if r {
            assert(t@ =~= stack_keyword());
        }
    }
    r
}

/// The bytes of the `CFI` keyword.
pub open spec fn cfi_keyword() -> Seq<u8> {
    seq![67u8, 70u8, 73u8]
}

/// Tests a field against the `CFI` keyword.
pub fn is_kw_cfi(t: &[u8]) -> (r: bool)
    ensures
        r == (t@ == cfi_keyword()),
{
    let r = t.len() == 3 && t[0] == 67 && t[1] == 70 && t[2] == 73;
    proof {
        if r {
            assert(t@ =~= cfi_keyword());
        }
    }
    r
}

/// The bytes of the `INIT` keyword.
pub open spec fn init_keyword() -> Seq<u8> {
    seq![73u8, 78u8, 73u8, 84u8]
}

/// Tests a field against the `INIT` keyword.
pub fn is_kw_init(t: &[u8]) -> (r: bool)
    ensures
        r == (t@ == init_keyword()),
{
    let r = t.len() == 4 && t[0] == 73 && t[1] == 78 && t[2] == 73 && t[3] == 84;
    proof {
        if r {
            assert(t@ =~= init_keyword());
        }
    }
    r
}

/// The bytes of the `WIN` keyword.
pub open spec fn win_keyword() -> Seq<u8> {
    seq![87u8, 73u8, 78u8]
}

/// Tests a field against the `WIN` keyword.
pub fn is_kw_win(t: &[u8]) -> (r: bool)
    ensures
        r == (t@ == win_keyword()),
{
    let r = t.len() == 3 && t[0] == 87 && t[1] == 73 && t[2] == 78;
    proof {
        if r {
            assert(t@ =~= win_keyword());
        }
    }
    r
}

/// Relies on `core::str::from_utf8`: ASCII bytes decode to exactly their
/// own characters, one character per byte.
#[verifier::external_body]
pub(crate) fn ascii_bytes_to_string(v: &[u8]) -> (r: String)
    requires
        all_ascii(v@),
    ensures
        r@ == ascii_chars(v@),
{
    match core::str::from_utf8(v) {
        Ok(s) => s.to_owned(),
        Err(_) => String::new(),
    }
}

} // verus!
