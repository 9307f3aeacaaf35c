//! Infix-to-postfix conversion with explicit concatenation.
//!
//! `re2post` rewrites an infix pattern over literals, `( ) | * + ?` into a
//! postfix token sequence in which `.` is an explicit concatenation operator,
//! or reports the position of the offending character.  The function is
//! specified against `spec_re2post`, a recursive restatement of the
//! conversion, and `lemma_spec_re2post_ok` shows that every successful
//! conversion yields a well-formed postfix sequence (`postfix_ok`), which is
//! what entitles the NFA builder to assume its fragment stack never
//! underflows and reduces to at most one fragment.

use vstd::prelude::*;
use vstd::string::StrSliceExecFns;
use vstd::assert_seqs_equal;

verus! {

/// `n` concatenation operators (empty when `n <= 0`).
pub open spec fn dots(n: int) -> Seq<char> {
    Seq::new(if n >= 0 { n as nat } else { 0 }, |i: int| '.')
}

/// `n` alternation operators (empty when `n <= 0`).
pub open spec fn bars(n: int) -> Seq<char> {
    Seq::new(if n >= 0 { n as nat } else { 0 }, |i: int| '|')
}

/// How one postfix token changes the height of a fragment stack, or `None`
/// if the stack is too short for the token's operands.
pub open spec fn pf_step(h: int, c: char) -> Option<int> {
    if c == '.' || c == '|' {
        if h >= 2 { Some(h - 1) } else { None }
    } else if c == '*' || c == '+' || c == '?' {
        if h >= 1 { Some(h) } else { None }
    } else {
        Some(h + 1)
    }
}

/// The fragment-stack height after running `p[i..]` from height `h`, or
/// `None` if some operator finds too few operands.
pub open spec fn pf_height(p: Seq<char>, i: int, h: int) -> Option<int>
    decreases p.len() - i,
{
    if i < 0 || i >= p.len() {
        Some(h)
    } else {
        match pf_step(h, p[i]) {
            Some(h2) => pf_height(p, i + 1, h2),
            None => None,
        }
    }
}

/// A postfix sequence is well formed when, run from an empty stack, no
/// operator underflows and at most one fragment remains (none for the empty
/// pattern).
pub open spec fn postfix_ok(p: Seq<char>) -> bool {
    match pf_height(p, 0, 0) {
        Some(h) => h == 0 || h == 1,
        None => false,
    }
}

/// The conversion, stated as a recursion over the remaining input.
///
/// `natom` counts atoms pending concatenation at the current nesting level
/// and `nalt` the completed alternation branches there; `paren` saves, for
/// each enclosing group, `(nalt, natom, position of the '(', last_alt)`;
/// `last_alt` is the position of the most recent `|` at the current level,
/// reported when the input ends on an empty final branch; `acc` is the
/// output emitted so far.  Errors carry the position of the offending
/// character: an empty alternation branch, an operand-less postfix operator,
/// an unmatched `)`, or a `(` still open at the end of the input.
pub open spec fn re2post_from(
    re: Seq<char>,
    i: int,
    natom: int,
    nalt: int,
    paren: Seq<(int, int, int, int)>,
    last_alt: int,
    acc: Seq<char>,
) -> Result<Seq<char>, int>
    decreases re.len() - i,
{
    if i < 0 || i >= re.len() {
        if paren.len() > 0 {
            Err(paren.last().2)
        } else if natom == 0 && nalt > 0 {
            Err(last_alt)
        } else {
            Ok(acc + dots(natom - 1) + bars(nalt))
        }
    } else {
        let ch = re[i];
        if ch == '(' {
            let saved = if natom > 1 { natom - 1 } else { natom };
            let acc2 = if natom > 1 { acc.push('.') } else { acc };
            re2post_from(re, i + 1, 0, 0, paren.push((nalt, saved, i, last_alt)), 0, acc2)
        } else if ch == '|' {
            if natom == 0 {
                Err(i)
            } else {
                re2post_from(re, i + 1, 0, nalt + 1, paren, i, acc + dots(natom - 1))
            }
        } else if ch == ')' {
            if natom == 0 {
                Err(i)
            } else if paren.len() == 0 {
                Err(i)
            } else {
                let t = paren.last();
                re2post_from(
                    re,
                    i + 1,
                    t.1 + 1,
                    t.0,
                    paren.drop_last(),
                    t.3,
                    acc + dots(natom - 1) + bars(nalt),
                )
            }
        } else if ch == '*' || ch == '+' || ch == '?' {
            if natom == 0 {
                Err(i)
            } else {
                re2post_from(re, i + 1, natom, nalt, paren, last_alt, acc.push(ch))
            }
        } else {
            if natom > 1 {
                re2post_from(re, i + 1, natom, nalt, paren, last_alt, acc + seq!['.', ch])
            } else {
                re2post_from(re, i + 1, natom + 1, nalt, paren, last_alt, acc.push(ch))
            }
        }
    }
}

/// What `re2post` returns on each pattern.
pub open spec fn spec_re2post(re: Seq<char>) -> Result<Seq<char>, int> {
    re2post_from(re, 0, 0, 0, Seq::empty(), 0, Seq::empty())
}

/// The exec paren stack, with its counters widened to mathematical integers.
pub open spec fn paren_view(p: Seq<(usize, usize, usize, usize)>) -> Seq<(int, int, int, int)> {
    p.map_values(|t: (usize, usize, usize, usize)| (t.0 as int, t.1 as int, t.2 as int, t.3 as int))
}

proof fn lemma_paren_view_push(p: Seq<(usize, usize, usize, usize)>, t: (usize, usize, usize, usize))
    ensures
        paren_view(p.push(t)) == paren_view(p).push((t.0 as int, t.1 as int, t.2 as int, t.3 as int)),
{
    assert_seqs_equal!(
        paren_view(p.push(t)),
        paren_view(p).push((t.0 as int, t.1 as int, t.2 as int, t.3 as int))
    );
}

proof fn lemma_paren_view_pop(p: Seq<(usize, usize, usize, usize)>)
    requires
        p.len() > 0,
    ensures
        paren_view(p).last() == (p.last().0 as int, p.last().1 as int, p.last().2 as int, p.last().3 as int),
        paren_view(p).drop_last() == paren_view(p.drop_last()),
{
    assert_seqs_equal!(paren_view(p).drop_last(), paren_view(p.drop_last()));
}

/// Emit one `.` for every atom beyond the first, reducing the pending atoms
/// at the current nesting level to a single fragment.
fn flush_concats(postfix: &mut Vec<char>, natom: usize)
    ensures
        final(postfix)@ == old(postfix)@ + dots(natom - 1),
{
    let ghost orig = postfix@;
    let mut j: usize = 1;
    assert(postfix@ =~= orig + dots(0));
    while j < natom
        invariant
            1 <= j,
            j <= natom || j == 1,
            postfix@ == orig + dots(j - 1),
        decreases natom - j,
    {
        postfix.push('.');
        proof {
            assert_seqs_equal!(postfix@, orig + dots(j as int));
        }
        j += 1;
    }
    proof {
        if natom <= 1 {
            assert(postfix@ =~= orig + dots(natom - 1));
        }
    }
}

/// Emits one `|` per completed alternation branch.
fn flush_alts(postfix: &mut Vec<char>, nalt: usize)
    ensures
        final(postfix)@ == old(postfix)@ + bars(nalt as int),
{
    let ghost orig = postfix@;
    let mut k: usize = 0;
    assert(postfix@ =~= orig + bars(0));
    while k < nalt
        invariant
            k <= nalt,
            postfix@ == orig + bars(k as int),
        decreases nalt - k,
    {
        postfix.push('|');
        proof {
            assert_seqs_equal!(postfix@, orig + bars(k + 1));
        }
        k += 1;
    }
}

proof fn lemma_pf_push(p: Seq<char>, i: int, h: int, c: char)
    requires
        0 <= i <= p.len(),
    ensures
        pf_height(p.push(c), i, h) == (match pf_height(p, i, h) {
            Some(h2) => pf_step(h2, c),
            None => None::<int>,
        }),
    decreases p.len() - i,
{
    if i == p.len() {
        assert(p.push(c)[i] == c);
        match pf_step(h, c) {
            Some(h2) => {
                assert(pf_height(p.push(c), i + 1, h2) == Some(h2));
            }
            None => {
            }
        }
    } else {
        assert(p.push(c)[i] == p[i]);
        match pf_step(h, p[i]) {
            Some(h2) => {
                lemma_pf_push(p, i + 1, h2, c);
            }
            None => {
            }
        }
    }
}

proof fn lemma_pf_append_dots(p: Seq<char>, h: int, k: int)
    requires
        0 <= k,
        h >= k + 1,
        pf_height(p, 0, 0) == Some(h),
    ensures
        pf_height(p + dots(k), 0, 0) == Some(h - k),
    decreases k,
{
    if k == 0 {
        assert(p + dots(0) =~= p);
    } else {
        lemma_pf_append_dots(p, h, k - 1);
        assert(p + dots(k) =~= (p + dots(k - 1)).push('.'));
        lemma_pf_push(p + dots(k - 1), 0, 0, '.');
    }
}

proof fn lemma_pf_append_bars(p: Seq<char>, h: int, k: int)
    requires
        0 <= k,
        h >= k + 1,
        pf_height(p, 0, 0) == Some(h),
    ensures
        pf_height(p + bars(k), 0, 0) == Some(h - k),
    decreases k,
{
    if k == 0 {
        assert(p + bars(0) =~= p);
    } else {
        lemma_pf_append_bars(p, h, k - 1);
        assert(p + bars(k) =~= (p + bars(k - 1)).push('|'));
        lemma_pf_push(p + bars(k - 1), 0, 0, '|');
    }
}

/// The atoms and branches still pending at every enclosing nesting level:
/// each is a fragment the emitted output has produced but not yet reduced.
pub open spec fn stack_sum(p: Seq<(int, int, int, int)>) -> int
    decreases p.len(),
{
    if p.len() == 0 {
        0
    } else {
        stack_sum(p.drop_last()) + p.last().0 + p.last().1
    }
}

proof fn lemma_stack_sum_nonneg(p: Seq<(int, int, int, int)>)
    requires
        forall|k: int| 0 <= k < p.len() ==> (#[trigger] p[k]).0 >= 0 && p[k].1 >= 0,
    ensures
        stack_sum(p) >= 0,
    decreases p.len(),
{
    if p.len() > 0 {
        assert(forall|k: int|
            0 <= k < p.drop_last().len() ==> (#[trigger] p.drop_last()[k]) == p[k]);
        lemma_stack_sum_nonneg(p.drop_last());
    }
}

proof fn lemma_re2post_valid(
    re: Seq<char>,
    i: int,
    natom: int,
    nalt: int,
    paren: Seq<(int, int, int, int)>,
    last_alt: int,
    acc: Seq<char>,
)
    requires
        0 <= i <= re.len(),
        natom >= 0,
        nalt >= 0,
        forall|k: int| 0 <= k < re.len() ==> re[k] != '.',
        forall|k: int| 0 <= k < paren.len() ==> (#[trigger] paren[k]).0 >= 0 && paren[k].1 >= 0,
        pf_height(acc, 0, 0) == Some(stack_sum(paren) + natom + nalt),
    ensures
        re2post_from(re, i, natom, nalt, paren, last_alt, acc) matches Ok(p) ==> postfix_ok(p),
    decreases re.len() - i,
{
    lemma_stack_sum_nonneg(paren);
    let h = stack_sum(paren) + natom + nalt;
    if i >= re.len() {
        if paren.len() == 0 && !(natom == 0 && nalt > 0) {
            if natom == 0 {
                assert(acc + dots(-1) + bars(0) =~= acc);
            } else {
                lemma_pf_append_dots(acc, h, natom - 1);
                lemma_pf_append_bars(acc + dots(natom - 1), h - (natom - 1), nalt);
            }
        }
    } else {
        let ch = re[i];
        if ch == '(' {
            let saved = if natom > 1 { natom - 1 } else { natom };
            let acc2 = if natom > 1 { acc.push('.') } else { acc };
            if natom > 1 {
                lemma_pf_push(acc, 0, 0, '.');
            }
            let t = (nalt, saved, i, last_alt);
            assert(paren.push(t).drop_last() =~= paren);
            assert(forall|k: int|
                0 <= k < paren.push(t).len() ==> (#[trigger] paren.push(t)[k]).0 >= 0
                    && paren.push(t)[k].1 >= 0);
            lemma_re2post_valid(re, i + 1, 0, 0, paren.push(t), 0, acc2);
        } else if ch == '|' {
            if natom != 0 {
                lemma_pf_append_dots(acc, h, natom - 1);
                lemma_re2post_valid(re, i + 1, 0, nalt + 1, paren, i, acc + dots(natom - 1));
            }
        } else if ch == ')' {
            if natom != 0 && paren.len() != 0 {
                let t = paren.last();
                assert(paren[paren.len() - 1].0 >= 0 && paren[paren.len() - 1].1 >= 0);
                lemma_pf_append_dots(acc, h, natom - 1);
                lemma_pf_append_bars(acc + dots(natom - 1), h - (natom - 1), nalt);
                assert(forall|k: int|
                    0 <= k < paren.drop_last().len() ==> (#[trigger] paren.drop_last()[k])
                        == paren[k]);
                lemma_re2post_valid(
                    re,
                    i + 1,
                    t.1 + 1,
                    t.0,
                    paren.drop_last(),
                    t.3,
                    acc + dots(natom - 1) + bars(nalt),
                );
            }
        } else if ch == '*' || ch == '+' || ch == '?' {
            if natom != 0 {
                lemma_pf_push(acc, 0, 0, ch);
                lemma_re2post_valid(re, i + 1, natom, nalt, paren, last_alt, acc.push(ch));
            }
        } else {
            if natom > 1 {
                lemma_pf_push(acc, 0, 0, '.');
                lemma_pf_push(acc.push('.'), 0, 0, ch);
                assert(acc + seq!['.', ch] =~= acc.push('.').push(ch));
                lemma_re2post_valid(re, i + 1, natom, nalt, paren, last_alt, acc + seq!['.', ch]);
            } else {
                lemma_pf_push(acc, 0, 0, ch);
                lemma_re2post_valid(re, i + 1, natom + 1, nalt, paren, last_alt, acc.push(ch));
            }
        }
    }
}

/// Every pattern of the supported grammar that the converter accepts yields
/// a well-formed postfix sequence, so Thompson construction on it can
/// neither underflow its fragment stack nor end with more than one fragment.
/// A literal `.` is outside the grammar: it would collide with the explicit
/// concatenation operator the converter emits.
pub proof fn lemma_spec_re2post_ok(re: Seq<char>)
    requires
        forall|k: int| 0 <= k < re.len() ==> re[k] != '.',
    ensures
        spec_re2post(re) matches Ok(p) ==> postfix_ok(p),
{
    assert(stack_sum(Seq::empty()) == 0);
    lemma_re2post_valid(re, 0, 0, 0, Seq::empty(), 0, Seq::empty());
}

proof fn lemma_re2post_len(
    re: Seq<char>,
    i: int,
    natom: int,
    nalt: int,
    paren: Seq<(int, int, int, int)>,
    last_alt: int,
    acc: Seq<char>,
)
    requires
        0 <= i <= re.len(),
        natom >= 0,
        nalt >= 0,
        forall|k: int| 0 <= k < paren.len() ==> (#[trigger] paren[k]).0 >= 0 && paren[k].1 >= 0,
        acc.len() + natom + nalt + stack_sum(paren) <= 2 * i,
    ensures
        re2post_from(re, i, natom, nalt, paren, last_alt, acc) matches Ok(p) ==> p.len() <= 2
            * re.len(),
    decreases re.len() - i,
{
    lemma_stack_sum_nonneg(paren);
    if i >= re.len() {
    } else {
        let ch = re[i];
        if ch == '(' {
            let saved = if natom > 1 { natom - 1 } else { natom };
            let acc2 = if natom > 1 { acc.push('.') } else { acc };
            let t = (nalt, saved, i, last_alt);
            assert(paren.push(t).drop_last() =~= paren);
            assert(forall|k: int|
                0 <= k < paren.push(t).len() ==> (#[trigger] paren.push(t)[k]).0 >= 0
                    && paren.push(t)[k].1 >= 0);
            lemma_re2post_len(re, i + 1, 0, 0, paren.push(t), 0, acc2);
        } else if ch == '|' {
            if natom != 0 {
                lemma_re2post_len(re, i + 1, 0, nalt + 1, paren, i, acc + dots(natom - 1));
            }
        } else if ch == ')' {
            if natom != 0 && paren.len() != 0 {
                let t = paren.last();
                assert(paren[paren.len() - 1].0 >= 0 && paren[paren.len() - 1].1 >= 0);
                assert(forall|k: int|
                    0 <= k < paren.drop_last().len() ==> (#[trigger] paren.drop_last()[k])
                        == paren[k]);
                lemma_re2post_len(
                    re,
                    i + 1,
                    t.1 + 1,
                    t.0,
                    paren.drop_last(),
                    t.3,
                    acc + dots(natom - 1) + bars(nalt),
                );
            }
        } else if ch == '*' || ch == '+' || ch == '?' {
            if natom != 0 {
                lemma_re2post_len(re, i + 1, natom, nalt, paren, last_alt, acc.push(ch));
            }
        } else {
            if natom > 1 {
                lemma_re2post_len(re, i + 1, natom, nalt, paren, last_alt, acc + seq!['.', ch]);
            } else {
                lemma_re2post_len(re, i + 1, natom + 1, nalt, paren, last_alt, acc.push(ch));
            }
        }
    }
}

/// The converter's output is never longer than twice its input: together
/// with the builder allocating at most one state per token, the automaton
/// holds at most `2 + 2 * |pattern|` states.
pub proof fn lemma_spec_re2post_len(re: Seq<char>)
    ensures
        spec_re2post(re) matches Ok(p) ==> p.len() <= 2 * re.len(),
{
    assert(stack_sum(Seq::empty()) == 0);
    lemma_re2post_len(re, 0, 0, 0, Seq::empty(), 0, Seq::empty());
}

/// Relies on String::push: it appends the given character to the end of the
/// string.
#[verifier::external_body]
fn string_push(s: &mut String, c: char)
    ensures
        final(s)@ == old(s)@.push(c),
{
    s.push(c);
}

/// Convert the infix pattern `re` to postfix notation with `.` as an
/// explicit concatenation operator, or return the position of the offending
/// character.
pub fn re2post(re: &str) -> (r: Result<String, usize>)
    ensures
        match r {
            Ok(p) => spec_re2post(re@) == Ok::<Seq<char>, int>(p@),
            Err(pos) => spec_re2post(re@) == Err::<Seq<char>, int>(pos as int),
        },
{
    let n = re.unicode_len();
    let mut natom: usize = 0;
    let mut nalt: usize = 0;
    let mut paren: Vec<(usize, usize, usize, usize)> = Vec::new();
    let mut postfix: Vec<char> = Vec::new();
    let mut last_alt: usize = 0;
    let mut index: usize = 0;
    proof {
        assert(paren_view(paren@) =~= Seq::<(int, int, int, int)>::empty());
        assert(postfix@ =~= Seq::<char>::empty());
    }
    while index < n
        invariant
            index <= n,
            n == re@.len(),
            natom <= 2,
            nalt <= index,
            forall|k: int| 0 <= k < paren@.len() ==> (#[trigger] paren@[k]).1 <= 1,
            forall|k: int|
                0 <= k < paren@.len() ==> (#[trigger] paren@[k]).0 <= paren@[k].2 && paren@[k].2
                    < index,
            re2post_from(
                re@,
                index as int,
                natom as int,
                nalt as int,
                paren_view(paren@),
                last_alt as int,
                postfix@,
            ) == spec_re2post(re@),
        decreases n - index,
    {
        let ch = re.get_char(index);
        let ghost pre_paren = paren@;
        let ghost pre_post = postfix@;
        match ch {
            '(' => {
                if natom > 1 {
                    natom -= 1;
                    postfix.push('.');
                }
                paren.push((nalt, natom, index, last_alt));
                proof {
                    lemma_paren_view_push(pre_paren, (nalt, natom, index, last_alt));
                }
                nalt = 0;
                natom = 0;
                last_alt = 0;
            }
            '|' => {
                if natom == 0 {
                    return Err(index);
                }
                flush_concats(&mut postfix, natom);
                natom = 0;
                nalt += 1;
                last_alt = index;
            }
            ')' => {
                if natom == 0 {
                    return Err(index);
                }
                flush_concats(&mut postfix, natom);
                flush_alts(&mut postfix, nalt);
                proof {
                    if paren@.len() > 0 {
                        lemma_paren_view_pop(paren@);
                    }
                }
                match paren.pop() {
                    None => {
                        return Err(index);
                    }
                    Some(tmp) => {
                        nalt = tmp.0;
                        natom = tmp.1;
                        natom += 1;
                        last_alt = tmp.3;
                    }
                }
            }
            '*' | '+' | '?' => {
                if natom == 0 {
                    return Err(index);
                }
                postfix.push(ch);
            }
            _ => {
                if natom > 1 {
                    postfix.push('.');
                    natom -= 1;
                    proof {
                        assert_seqs_equal!(postfix@.push(ch), pre_post + seq!['.', ch]);
                    }
                }
                postfix.push(ch);
                natom += 1;
            }
        }
        index += 1;
    }
    if paren.len() > 0 {
        let t = paren[paren.len() - 1];
        proof {
            lemma_paren_view_pop(paren@);
        }
        return Err(t.2);
    }
    if natom == 0 && nalt > 0 {
        return Err(last_alt);
    }
    flush_concats(&mut postfix, natom);
    flush_alts(&mut postfix, nalt);
    let mut out = String::new();
    let mut j: usize = 0;
    proof {
        assert(out@ =~= postfix@.take(0));
    }
    while j < postfix.len()
        invariant
            j <= postfix@.len(),
            out@ == postfix@.take(j as int),
        decreases postfix@.len() - j,
    {
        let c = postfix[j];
        string_push(&mut out, c);
        proof {
            assert_seqs_equal!(postfix@.take(j + 1), postfix@.take(j as int).push(postfix@[j as int]));
        }
        j += 1;
    }
    proof {
        assert(out@ =~= postfix@);
    }
    Ok(out)
}

} // verus!
