//! Evaluation of call-frame-information rule programs.
//!
//! A CFI rule maps a destination register to a postfix expression over
//! literals, the registers of the callee's state, the derived `.cfa`
//! value, and memory dereference. The expression evaluator is proved
//! against an exact stack-machine specification; the rule-text splitter is
//! a tolerant helper whose output feeds it. The register vocabulary is the
//! x86-64 subset `$rip`, `$rsp`, `$rbp`.

use vstd::prelude::*;
use vstd::string::StringExecFns;
use vstd::string::StrSliceExecFns;

use crate::digits::{all_dec_chars, dec_chars_value, parse_dec_chars_u64};
use crate::memory::{mem_word, StackMemory};

verus! {

/// The callee state a CFI program may read.
#[derive(Debug, PartialEq, Eq, Structural, Clone, Copy)]
pub struct CfiEnv {
    pub cfa_set: bool,
    pub cfa: u64,
    pub ip: u64,
    pub sp: u64,
    pub fp: u64,
}

pub open spec fn wrap_add(a: u64, b: u64) -> u64 {
    ((a + b) % 0x1_0000_0000_0000_0000) as u64
}

pub open spec fn wrap_sub(a: u64, b: u64) -> u64 {
    ((a - b + 0x1_0000_0000_0000_0000) % 0x1_0000_0000_0000_0000) as u64
}

pub open spec fn wrap_mul(a: u64, b: u64) -> u64 {
    ((a * b) % 0x1_0000_0000_0000_0000) as u64
}

pub open spec fn wrap_neg(a: u64) -> u64 {
    ((0x1_0000_0000_0000_0000 - a) % 0x1_0000_0000_0000_0000) as u64
}

/// `a` aligned down to a multiple of `b`.
pub open spec fn align_down(a: u64, b: u64) -> u64 {
    (a - (a as int % b as int)) as u64
}

pub open spec fn tok_cfa() -> Seq<char> {
    seq!['.', 'c', 'f', 'a']
}

pub open spec fn tok_ra() -> Seq<char> {
    seq!['.', 'r', 'a']
}

pub open spec fn tok_rip() -> Seq<char> {
    seq!['$', 'r', 'i', 'p']
}

pub open spec fn tok_rsp() -> Seq<char> {
    seq!['$', 'r', 's', 'p']
}

pub open spec fn tok_rbp() -> Seq<char> {
    seq!['$', 'r', 'b', 'p']
}

/// One step of the postfix machine: applies token `tok` to stack `st`.
/// Unknown tokens, underflow, division by zero and out-of-range memory
/// reads fail the program.
pub open spec fn step(tok: Seq<char>, st: Seq<u64>, env: CfiEnv, mem: &StackMemory) -> Option<
    Seq<u64>,
> {
    let l = st.len() as int;
    if tok == tok_cfa() {
        if env.cfa_set {
            Some(st.push(env.cfa))
        } else {
            None
        }
    } else if tok == tok_rsp() {
        Some(st.push(env.sp))
    } else if tok == tok_rbp() {
        Some(st.push(env.fp))
    } else if tok == tok_rip() {
        Some(st.push(env.ip))
    } else if tok == seq!['^'] {
        if st.len() >= 1 {
            match mem_word(mem, st.last()) {
                Some(v) => Some(st.drop_last().push(v)),
                None => None,
            }
        } else {
            None
        }
    } else if tok == seq!['+'] {
        if st.len() >= 2 {
            Some(st.drop_last().drop_last().push(wrap_add(st[l - 2], st[l - 1])))
        } else {
            None
        }
    } else if tok == seq!['-'] {
        if st.len() >= 2 {
            Some(st.drop_last().drop_last().push(wrap_sub(st[l - 2], st[l - 1])))
        } else {
            None
        }
    } else if tok == seq!['*'] {
        if st.len() >= 2 {
            Some(st.drop_last().drop_last().push(wrap_mul(st[l - 2], st[l - 1])))
        } else {
            None
        }
    } else if tok == seq!['/'] {
        if st.len() >= 2 && st[l - 1] != 0 {
            Some(st.drop_last().drop_last().push(st[l - 2] / st[l - 1]))
        } else {
            None
        }
    } else if tok == seq!['%'] {
        if st.len() >= 2 && st[l - 1] != 0 {
            Some(st.drop_last().drop_last().push(st[l - 2] % st[l - 1]))
        } else {
            None
        }
    } else if tok == seq!['@'] {
        if st.len() >= 2 && st[l - 1] != 0 {
            Some(st.drop_last().drop_last().push(align_down(st[l - 2], st[l - 1])))
        } else {
            None
        }
    } else if tok.len() >= 2 && tok[0] == '-' && all_dec_chars(tok.skip(1)) && dec_chars_value(
        tok.skip(1),
    ) <= u64::MAX {
        Some(st.push(wrap_neg(dec_chars_value(tok.skip(1)) as u64)))
    } else if tok.len() >= 1 && all_dec_chars(tok) && dec_chars_value(tok) <= u64::MAX {
        Some(st.push(dec_chars_value(tok) as u64))
    } else {
        None
    }
}

/// Runs the first `k` tokens of the program on an empty stack.
pub open spec fn run_prog(toks: Seq<Seq<char>>, k: int, env: CfiEnv, mem: &StackMemory) -> Option<
    Seq<u64>,
>
    decreases k,
{
    if k <= 0 {
        Some(Seq::empty())
    } else {
        match run_prog(toks, k - 1, env, mem) {
            None => None,
            Some(st) => step(toks[k - 1], st, env, mem),
        }
    }
}

/// The value of a whole postfix program: it must run through and leave
/// exactly one value.
pub open spec fn eval_expr_spec(toks: Seq<Seq<char>>, env: CfiEnv, mem: &StackMemory) -> Option<
    u64,
> {
    match run_prog(toks, toks.len() as int, env, mem) {
        Some(st) => if st.len() == 1 {
            Some(st[0])
        } else {
            None
        },
        None => None,
    }
}

proof fn lemma_run_none(toks: Seq<Seq<char>>, k: int, m: int, env: CfiEnv, mem: &StackMemory)
    requires
        0 <= k <= m,
        run_prog(toks, k, env, mem) is None,
    ensures
        run_prog(toks, m, env, mem) is None,
    decreases m - k,
{
    if k < m {
        lemma_run_none(toks, k + 1, m, env, mem);
    }
}

/// Compares two string slices character by character.
pub fn str_eq(a: &str, b: &str) -> (r: bool)
    ensures
        r == (a@ == b@),
{
    let n = a.unicode_len();
    if n != b.unicode_len() {
        return false;
    }
    let mut i: usize = 0;
    while i < n
        invariant
            0 <= i <= n,
            n == a@.len() == b@.len(),
            forall|j: int| 0 <= j < i ==> a@[j] == b@[j],
        decreases n - i,
    {
        if a.get_char(i) != b.get_char(i) {
            return false;
        }
        i = i + 1;
    }
    proof {
        assert(a@ =~= b@);
    }
    true
}

fn is_tok_cfa(t: &str) -> (r: bool)
    ensures
        r == (t@ == tok_cfa()),
{
    let r = t.unicode_len() == 4 && t.get_char(0) == '.' && t.get_char(1) == 'c' && t.get_char(2)
        == 'f' && t.get_char(3) == 'a';
    proof {
        if r {
            assert(t@ =~= tok_cfa());
        }
    }
    r
}

fn is_tok_rsp(t: &str) -> (r: bool)
    ensures
        r == (t@ == tok_rsp()),
{
    let r = t.unicode_len() == 4 && t.get_char(0) == '$' && t.get_char(1) == 'r' && t.get_char(2)
        == 's' && t.get_char(3) == 'p';
    proof {
        if r {
            assert(t@ =~= tok_rsp());
        }
    }
    r
}

fn is_tok_rbp(t: &str) -> (r: bool)
    ensures
        r == (t@ == tok_rbp()),
{
    let r = t.unicode_len() == 4 && t.get_char(0) == '$' && t.get_char(1) == 'r' && t.get_char(2)
        == 'b' && t.get_char(3) == 'p';
    proof {
        if r {
            assert(t@ =~= tok_rbp());
        }
    }
    r
}

fn is_tok_rip(t: &str) -> (r: bool)
    ensures
        r == (t@ == tok_rip()),
{
    let r = t.unicode_len() == 4 && t.get_char(0) == '$' && t.get_char(1) == 'r' && t.get_char(2)
        == 'i' && t.get_char(3) == 'p';
    proof {
        if r {
            assert(t@ =~= tok_rip());
        }
    }
    r
}

fn is_char_tok(t: &str, c: char) -> (r: bool)
    ensures
        r == (t@ == seq![c]),
{
    let r = t.unicode_len() == 1 && t.get_char(0) == c;
    proof {
        if r {
            assert(t@ =~= seq![c]);
        }
    }
    r
}

fn add64(a: u64, b: u64) -> (r: u64)
    ensures
        r == wrap_add(a, b),
{
    (((a as u128) + (b as u128)) % 0x1_0000_0000_0000_0000u128) as u64
}

fn sub64(a: u64, b: u64) -> (r: u64)
    ensures
        r == wrap_sub(a, b),
{
    (((a as u128) + 0x1_0000_0000_0000_0000u128 - (b as u128)) % 0x1_0000_0000_0000_0000u128)
        as u64
}

fn mul64(a: u64, b: u64) -> (r: u64)
    ensures
        r == wrap_mul(a, b),
{
    proof {
        assert((a as int) * (b as int) <= 0xFFFF_FFFF_FFFF_FFFF * 0xFFFF_FFFF_FFFF_FFFF)
            by (nonlinear_arith)
            requires
                a <= 0xFFFF_FFFF_FFFF_FFFFu64,
                b <= 0xFFFF_FFFF_FFFF_FFFFu64,
        {
        }
    }
    (((a as u128) * (b as u128)) % 0x1_0000_0000_0000_0000u128) as u64
}

fn neg64(a: u64) -> (r: u64)
    ensures
        r == wrap_neg(a),
{
    ((0x1_0000_0000_0000_0000u128 - (a as u128)) % 0x1_0000_0000_0000_0000u128) as u64
}

/// Evaluates a postfix token program against the callee state.
pub fn eval_expr(tokens: &Vec<String>, env: &CfiEnv, mem: &StackMemory) -> (r: Option<u64>)
    ensures
        r == eval_expr_spec(tokens@.map_values(|t: String| t@), *env, mem),
{
    let ghost toks = tokens@.map_values(|t: String| t@);
    let n = tokens.len();
    let mut st: Vec<u64> = Vec::new();
    let mut k: usize = 0;
    while k < n
        invariant
            0 <= k <= n,
            n == tokens@.len(),
            toks == tokens@.map_values(|t: String| t@),
            run_prog(toks, k as int, *env, mem) == Some(st@),
        decreases n - k,
    {
        let ghost st_old = st@;
        let t = tokens[k].as_str();
        proof {
            assert(toks[k as int] == t@);
        }
        let ok: bool;
        if is_tok_cfa(t) {
            if env.cfa_set {
                st.push(env.cfa);
                ok = true;
            } else {
                ok = false;
            }
        } else if is_tok_rsp(t) {
            st.push(env.sp);
            ok = true;
        } else if is_tok_rbp(t) {
            st.push(env.fp);
            ok = true;
        } else if is_tok_rip(t) {
            st.push(env.ip);
            ok = true;
        } else if is_char_tok(t, '^') {
            if st.len() >= 1 {
                let addr = st.pop().unwrap();
                match mem.read_word(addr) {
                    Some(v) => {
                        st.push(v);
                        ok = true;
                    },
                    None => {
                        ok = false;
                    },
                }
            } else {
                ok = false;
            }
        } else if is_char_tok(t, '+') {
            if st.len() >= 2 {
                let b = st.pop().unwrap();
                let a = st.pop().unwrap();
                st.push(add64(a, b));
                ok = true;
            } else {
                ok = false;
            }
        } else if is_char_tok(t, '-') {
            if st.len() >= 2 {
                let b = st.pop().unwrap();
                let a = st.pop().unwrap();
                st.push(sub64(a, b));
                ok = true;
            } else {
                ok = false;
            }
        } else if is_char_tok(t, '*') {
            if st.len() >= 2 {
                let b = st.pop().unwrap();
                let a = st.pop().unwrap();
                st.push(mul64(a, b));
                ok = true;
            } else {
                ok = false;
            }
        } else if is_char_tok(t, '/') {
            if st.len() >= 2 {
                let b = st.pop().unwrap();
                let a = st.pop().unwrap();
                if b != 0 {
                    st.push(a / b);
                    ok = true;
                } else {
                    ok = false;
                }
            } else {
                ok = false;
            }
        } else if is_char_tok(t, '%') {
            if st.len() >= 2 {
                let b = st.pop().unwrap();
                let a = st.pop().unwrap();
                if b != 0 {
                    st.push(a % b);
                    ok = true;
                } else {
                    ok = false;
                }
            } else {
                ok = false;
            }
        } else if is_char_tok(t, '@') {
            if st.len() >= 2 {
                let b = st.pop().unwrap();
                let a = st.pop().unwrap();
                if b != 0 {
                    proof {
                        assert(a as int % b as int <= a as int) by (nonlinear_arith)
                            requires
                                b as int > 0,
                                a as int >= 0,
                        {
                        }
                    }
                    st.push(a - a % b);
                    ok = true;
                } else {
                    ok = false;
                }
            } else {
                ok = false;
            }
        } else {
            let len = t.unicode_len();
            if len >= 2 && t.get_char(0) == '-' {
                match parse_dec_chars_u64(t, 1) {
                    Some(v) => {
                        st.push(neg64(v));
                        ok = true;
                        proof {
                            assert(t@.skip(1) =~= t@.subrange(1, t@.len() as int));
                        }
                    },
                    None => {
                        ok = false;
                        proof {
                            assert(t@.skip(1) =~= t@.subrange(1, t@.len() as int));
                            assert(!(t@[0] as u32 >= 48 && t@[0] as u32 <= 57));
                        }
                    },
                }
            } else {
                match parse_dec_chars_u64(t, 0) {
                    Some(v) => {
                        st.push(v);
                        ok = true;
                        proof {
                            assert(t@.skip(0) =~= t@);
                        }
                    },
                    None => {
                        ok = false;
                        proof {
                            assert(t@.skip(0) =~= t@);
                        }
                    },
                }
            }
        }
        if !ok {
            proof {
                assert(step(toks[k as int], st_old, *env, mem) is None);
                assert(run_prog(toks, k + 1, *env, mem) is None);
                lemma_run_none(toks, k + 1, n as int, *env, mem);
            }
            return None;
        }
        proof {
            assert(step(toks[k as int], st_old, *env, mem) == Some(st@));
            assert(run_prog(toks, k + 1, *env, mem) == Some(st@));
        }
        k = k + 1;
    }
    if st.len() == 1 {
        let v = st[0];
        Some(v)
    } else {
        None
    }
}

/// Blank characters separating rule-text fields: space, tab and
/// carriage return.
pub open spec fn is_space_char(c: char) -> bool {
    c == ' ' || c == '\t' || c == '\r'
}

/// `s` with its leading blank characters removed.
pub open spec fn skip_spaces_c(s: Seq<char>) -> Seq<char>
    decreases s.len(),
{
    if s.len() > 0 && is_space_char(s[0]) {
        skip_spaces_c(s.skip(1))
    } else {
        s
    }
}

/// Length of the blank-free prefix of `s`.
pub open spec fn token_len_c(s: Seq<char>) -> int
    decreases s.len(),
{
    if s.len() == 0 || is_space_char(s[0]) {
        0
    } else {
        1 + token_len_c(s.skip(1))
    }
}

pub proof fn lemma_skip_spaces_c_len(s: Seq<char>)
    ensures
        skip_spaces_c(s).len() <= s.len(),
    decreases s.len(),
{
    if s.len() > 0 && is_space_char(s[0]) {
        lemma_skip_spaces_c_len(s.skip(1));
    }
}

pub proof fn lemma_token_len_c_bound(s: Seq<char>)
    ensures
        0 <= token_len_c(s) <= s.len(),
    decreases s.len(),
{
    if s.len() > 0 && !is_space_char(s[0]) {
        lemma_token_len_c_bound(s.skip(1));
    }
}

/// The first blank-separated field of `s`.
pub open spec fn first_token_c(s: Seq<char>) -> Seq<char> {
    skip_spaces_c(s).take(token_len_c(skip_spaces_c(s)))
}

/// What remains of `s` after its first field.
pub open spec fn rest_after_token_c(s: Seq<char>) -> Seq<char> {
    skip_spaces_c(s).skip(token_len_c(skip_spaces_c(s)))
}

/// Advances past blank characters.
fn skip_ws_chars(s: &str, pos: usize) -> (r: usize)
    requires
        pos <= s@.len(),
    ensures
        pos <= r <= s@.len(),
        skip_spaces_c(s@.skip(pos as int)) == s@.skip(r as int),
{
    let n = s.unicode_len();
    let mut i: usize = pos;
    while i < n && (s.get_char(i) == ' ' || s.get_char(i) == '\t' || s.get_char(i) == '\r')
        invariant
            pos <= i <= n,
            n == s@.len(),
            skip_spaces_c(s@.skip(pos as int)) == skip_spaces_c(s@.skip(i as int)),
        decreases n - i,
    {
        proof {
            assert(s@.skip(i as int).skip(1) =~= s@.skip(i + 1));
        }
        i = i + 1;
    }
    proof {
        if i < n {
            assert(skip_spaces_c(s@.skip(i as int)) == s@.skip(i as int));
        } else {
            assert(s@.skip(i as int) =~= Seq::<char>::empty());
        }
    }
    i
}

/// Advances to the end of the current blank-free field.
fn token_end_chars(s: &str, pos: usize) -> (r: usize)
    requires
        pos <= s@.len(),
    ensures
        pos <= r <= s@.len(),
        token_len_c(s@.skip(pos as int)) == r - pos,
{
    let n = s.unicode_len();
    let mut i: usize = pos;
    while i < n && !(s.get_char(i) == ' ' || s.get_char(i) == '\t' || s.get_char(i) == '\r')
        invariant
            pos <= i <= n,
            n == s@.len(),
            token_len_c(s@.skip(pos as int)) == (i - pos) + token_len_c(s@.skip(i as int)),
        decreases n - i,
    {
        proof {
            assert(s@.skip(i as int).skip(1) =~= s@.skip(i + 1));
            lemma_token_len_c_bound(s@.skip(i + 1));
        }
        i = i + 1;
    }
    proof {
        if i < n {
            assert(token_len_c(s@.skip(i as int)) == 0);
        } else {
            assert(s@.skip(i as int) =~= Seq::<char>::empty());
        }
    }
    i
}

/// Finds the first blank-separated field at or after `pos`: its bounds
/// are returned, and the remainder starts at the field's end.
fn next_token_chars(s: &str, pos: usize) -> (r: (usize, usize))
    requires
        pos <= s@.len(),
    ensures
        pos <= r.0 <= r.1 <= s@.len(),
        s@.subrange(r.0 as int, r.1 as int) == first_token_c(s@.skip(pos as int)),
        s@.skip(r.1 as int) == rest_after_token_c(s@.skip(pos as int)),
{
    let ts = skip_ws_chars(s, pos);
    let te = token_end_chars(s, ts);
    proof {
        let w = s@.skip(pos as int);
        lemma_token_len_c_bound(skip_spaces_c(w));
        assert(skip_spaces_c(w) == s@.skip(ts as int));
        assert(token_len_c(s@.skip(ts as int)) == te - ts);
        assert(s@.skip(ts as int).take(te - ts) =~= s@.subrange(ts as int, te as int));
        assert(s@.skip(ts as int).skip(te - ts) =~= s@.skip(te as int));
    }
    (ts, te)
}

/// The characters of one parsed rule: its destination register and its
/// expression tokens.
pub open spec fn rule_view(p: (String, Vec<String>)) -> (Seq<char>, Seq<Seq<char>>) {
    (p.0@, p.1@.map_values(|t: String| t@))
}

/// The characters of a parsed rule list.
pub open spec fn rules_view(v: Seq<(String, Vec<String>)>) -> Seq<(Seq<char>, Seq<Seq<char>>)> {
    v.map_values(|p: (String, Vec<String>)| rule_view(p))
}

/// One splitting step over the remaining rule text: a field ending in
/// `:` closes the rule under construction and names the next register; a
/// bare field extends the current rule's expression; text before any
/// register field, or an empty register name, fails the split.
pub open spec fn rules_fold(
    s: Seq<char>,
    cur: Option<(Seq<char>, Seq<Seq<char>>)>,
    out: Seq<(Seq<char>, Seq<Seq<char>>)>,
) -> Option<Seq<(Seq<char>, Seq<Seq<char>>)>>
    decreases s.len(),
    via rules_fold_decreases
{
    let t = first_token_c(s);
    let rest = rest_after_token_c(s);
    if t.len() == 0 {
        match cur {
            Some(c) => Some(out.push(c)),
            None => Some(out),
        }
    } else if t.last() == ':' {
        if t.len() < 2 {
            None
        } else {
            let out2 = match cur {
                Some(c) => out.push(c),
                None => out,
            };
            rules_fold(rest, Some((t.drop_last(), Seq::empty())), out2)
        }
    } else {
        match cur {
            None => None,
            Some(c) => rules_fold(rest, Some((c.0, c.1.push(t))), out),
        }
    }
}

#[via_fn]
proof fn rules_fold_decreases(
    s: Seq<char>,
    cur: Option<(Seq<char>, Seq<Seq<char>>)>,
    out: Seq<(Seq<char>, Seq<Seq<char>>)>,
) {
    lemma_skip_spaces_c_len(s);
    lemma_token_len_c_bound(skip_spaces_c(s));
}

/// The rules CFI rule text splits into, or nothing when it is malformed.
pub open spec fn rules_of(s: Seq<char>) -> Option<Seq<(Seq<char>, Seq<Seq<char>>)>> {
    rules_fold(s, None, Seq::empty())
}

/// The value the rule for `target` yields: the evaluation of the last
/// rule in program order naming `target`, since a later rule overrides an
/// earlier one; nothing when no rule names it.
pub open spec fn rule_value(
    rules: Seq<(Seq<char>, Seq<Seq<char>>)>,
    target: Seq<char>,
    env: CfiEnv,
    mem: &StackMemory,
) -> Option<u64>
    decreases rules.len(),
{
    if rules.len() == 0 {
        None
    } else if rules.last().0 == target {
        eval_expr_spec(rules.last().1, env, mem)
    } else {
        rule_value(rules.drop_last(), target, env, mem)
    }
}

proof fn lemma_rule_value_at_last_match(
    rules: Seq<(Seq<char>, Seq<Seq<char>>)>,
    target: Seq<char>,
    env: CfiEnv,
    mem: &StackMemory,
    i: int,
)
    requires
        0 <= i < rules.len(),
        rules[i].0 == target,
        forall|j: int| i < j < rules.len() ==> (#[trigger] rules[j]).0 != target,
    ensures
        rule_value(rules, target, env, mem) == eval_expr_spec(rules[i].1, env, mem),
    decreases rules.len(),
{
    if i == rules.len() - 1 {
    } else {
        assert(rules.last().0 != target);
        assert(rules.drop_last()[i] == rules[i]);
        lemma_rule_value_at_last_match(rules.drop_last(), target, env, mem, i);
    }
}

proof fn lemma_rule_value_no_match(
    rules: Seq<(Seq<char>, Seq<Seq<char>>)>,
    target: Seq<char>,
    env: CfiEnv,
    mem: &StackMemory,
)
    requires
        forall|j: int| 0 <= j < rules.len() ==> (#[trigger] rules[j]).0 != target,
    ensures
        rule_value(rules, target, env, mem) is None,
    decreases rules.len(),
{
    if rules.len() > 0 {
        lemma_rule_value_no_match(rules.drop_last(), target, env, mem);
    }
}

/// Splits CFI rule text into (destination register, postfix tokens)
/// pairs, exactly as [`rules_of`] prescribes: a field ending in `:`
/// starts the rule for the register it names; the fields after it, up to
/// the next such field, form the expression. Fails when the text does
/// not begin with a register field or names an empty register.
pub(crate) fn parse_rules(text: &str) -> (r: Option<Vec<(String, Vec<String>)>>)
    ensures
        match r {
            Some(v) => rules_of(text@) == Some(rules_view(v@)),
            None => rules_of(text@) is None,
        },
{
    let n = text.unicode_len();
    let mut out: Vec<(String, Vec<String>)> = Vec::new();
    let mut cur_reg: Option<String> = None;
    let mut cur_expr: Vec<String> = Vec::new();
    let mut pos: usize = 0;
    proof {
        assert(text@.skip(0) =~= text@);
        assert(rules_view(out@) =~= Seq::<(Seq<char>, Seq<Seq<char>>)>::empty());
    }
    loop
        invariant
            pos <= n,
            n == text@.len(),
            rules_of(text@) == rules_fold(
                text@.skip(pos as int),
                match cur_reg {
                    Some(reg) => Some((reg@, cur_expr@.map_values(|t: String| t@))),
                    None => None,
                },
                rules_view(out@),
            ),
        ensures
            pos <= n == text@.len(),
            first_token_c(text@.skip(pos as int)).len() == 0,
            rules_of(text@) == rules_fold(
                text@.skip(pos as int),
                match cur_reg {
                    Some(reg) => Some((reg@, cur_expr@.map_values(|t: String| t@))),
                    None => None,
                },
                rules_view(out@),
            ),
        decreases n - pos,
    {
        let (ts, te) = next_token_chars(text, pos);
        let ghost remaining = text@.skip(pos as int);
        let ghost t = first_token_c(remaining);
        proof {
            assert(t == text@.subrange(ts as int, te as int));
        }
        if te == ts {
            break;
        }
        if text.get_char(te - 1) == ':' {
            proof {
                assert(t.last() == text@[te - 1]);
            }
            if te - ts < 2 {
                return None;
            }
            match cur_reg {
                Some(reg) => {
                    let mut done_expr: Vec<String> = Vec::new();
                    core::mem::swap(&mut done_expr, &mut cur_expr);
                    let ghost before = out@;
                    out.push((reg, done_expr));
                    proof {
                        assert(rules_view(out@) =~= rules_view(before).push(
                            rule_view(out@.last()),
                        ));
                    }
                },
                None => {},
            }
            let reg_text = String::from_str(text.substring_char(ts, te - 1));
            proof {
                assert(reg_text@ =~= t.drop_last());
            }
            cur_reg = Some(reg_text);
            cur_expr = Vec::new();
            proof {
                assert(cur_expr@.map_values(|t2: String| t2@) =~= Seq::<Seq<char>>::empty());
            }
        } else {
            if matches!(cur_reg, None) {
                return None;
            }
            let ghost expr_before = cur_expr@;
            cur_expr.push(String::from_str(text.substring_char(ts, te)));
            proof {
                assert(cur_expr@.map_values(|t2: String| t2@) =~= expr_before.map_values(
                    |t2: String| t2@,
                ).push(t));
            }
        }
        pos = te;
    }
    match cur_reg {
        Some(reg) => {
            let ghost before = out@;
            out.push((reg, cur_expr));
            proof {
                assert(rules_view(out@) =~= rules_view(before).push(rule_view(out@.last())));
            }
        },
        None => {},
    }
    Some(out)
}

/// Finds the rule for `target`/// Finds the rule for `target`: the last one in program order, since a
/// later rule for the same register overrides an earlier one.
pub fn find_rule<'a>(rules: &'a Vec<(String, Vec<String>)>, target: &str) -> (r: Option<
    &'a Vec<String>,
>)
    ensures
        match r {
            Some(e) => exists|i: int|
                0 <= i < rules@.len() && (#[trigger] rules@[i]).0@ == target@ && rules@[i].1 == *e
                    && (forall|j: int|
                    i < j < rules@.len() ==> (#[trigger] rules@[j]).0@ != target@),
            None => forall|i: int| 0 <= i < rules@.len() ==> (#[trigger] rules@[i]).0@ != target@,
        },
{
    let n = rules.len();
    let mut i: usize = 0;
    let mut best: usize = 0;
    let mut have = false;
    while i < n
        invariant
            0 <= i <= n,
            n == rules@.len(),
            have ==> best < i && rules@[best as int].0@ == target@ && (forall|j: int|
                best < j < i ==> (#[trigger] rules@[j]).0@ != target@),
            !have ==> forall|j: int| 0 <= j < i ==> (#[trigger] rules@[j]).0@ != target@,
        decreases n - i,
    {
        if str_eq(rules[i].0.as_str(), target) {
            best = i;
            have = true;
        }
        i = i + 1;
    }
    if have {
        Some(&rules[best].1)
    } else {
        None
    }
}

/// Evaluates the rule for `target`, if one is present, under `env`:
/// returns exactly what [`rule_value`] prescribes for the parsed rules.
pub fn eval_rule(
    rules: &Vec<(String, Vec<String>)>,
    target: &str,
    env: &CfiEnv,
    mem: &StackMemory,
) -> (r: Option<u64>)
    ensures
        r == rule_value(rules_view(rules@), target@, *env, mem),
{
    match find_rule(rules, target) {
        Some(expr) => {
            let r = eval_expr(expr, env, mem);
            proof {
                let rv = rules_view(rules@);
                let i = choose|i: int|
                    0 <= i < rules@.len() && (#[trigger] rules@[i]).0@ == target@ && rules@[i].1
                        == *expr && (forall|j: int|
                        i < j < rules@.len() ==> (#[trigger] rules@[j]).0@ != target@);
                assert(rv[i] == rule_view(rules@[i]));
                assert forall|j: int| i < j < rv.len() implies (#[trigger] rv[j]).0
                    != target@ by {
                    assert(rv[j] == rule_view(rules@[j]));
                }
                lemma_rule_value_at_last_match(rv, target@, *env, mem, i);
            }
            r
        },
        None => {
            proof {
                let rv = rules_view(rules@);
                assert forall|j: int| 0 <= j < rv.len() implies (#[trigger] rv[j]).0
                    != target@ by {
                    assert(rv[j] == rule_view(rules@[j]));
                }
                lemma_rule_value_no_match(rv, target@, *env, mem);
            }
            None
        },
    }
}

} // verus!
