//! How the OpenQASM text of the export reads back: its statement texts and
//! the statements each of them parses as.
use vstd::prelude::*;
use crate::format::qasm_parse::{
    join_lines, nonblank_trimmed, split_on, strip_cr, text_lines, trim_end, trim_start, trimmed, uncommented,
    comment_start, without_comments, lemma_split_on_nonempty, digits_end, digits_value, is_digit, is_space,
    ident_end, ident_rest_end, is_ident_char, skip_ws, reg_ref_at, reg_list_at, reg_list_rest, char_at, tag_at,
    StmtView, statement_at, header_at, include_at, qreg_at, creg_at, measure_at, barrier_at, keyword_end, tag_any_case, blank_from, quote_end, number_end, float_end, sign_end,
};
use crate::format::qasm::{qref, qubit_list, gate_code, measure_line, line_block, qasm_registers};
use crate::circuit::PlacedGateView;
use crate::gate::{GateType, spec_num_qubits, spec_num_controls};
use crate::text::{decimal, digit_char, white_space};

verus! {

/// A character a statement text of the export may hold: no `;`, newline,
/// carriage return or `/`.
pub open spec fn plain_char(c: char) -> bool {
    c != ';' && c != '\n' && c != '\r' && c != '/'
}

/// A statement text as the export writes it: not empty, only plain
/// characters, and no white space at either end.
pub open spec fn good_body(b: Seq<char>) -> bool {
    &&& b.len() > 0
    &&& forall|i: int| 0 <= i < b.len() ==> plain_char(#[trigger] b[i])
    &&& !white_space(b[0])
    &&& !white_space(b.last())
}

/// Every character is white space.
pub open spec fn all_white(s: Seq<char>) -> bool {
    forall|i: int| 0 <= i < s.len() ==> white_space(#[trigger] s[i])
}

/// No `/` and no carriage return.
pub open spec fn no_slash_cr(s: Seq<char>) -> bool {
    forall|i: int| 0 <= i < s.len() ==> (#[trigger] s[i]) != '/' && s[i] != '\r'
}

/// What follows the last `;` is white space only.
#[verifier::opaque]
pub open spec fn clean(x: Seq<char>) -> bool {
    all_white(split_on(x, ';').last())
}

/// The trimmed, non-empty pieces between the `;` of a text.
#[verifier::opaque]
pub open spec fn pieces(x: Seq<char>) -> Seq<Seq<char>> {
    nonblank_trimmed(split_on(x, ';'))
}

proof fn lemma_split_push(s: Seq<char>, x: char, c: char)
    ensures
        split_on(s.push(x), c) == (if x == c {
            split_on(s, c).push(Seq::empty())
        } else {
            split_on(s, c).update(split_on(s, c).len() - 1, split_on(s, c).last().push(x))
        }),
{
    assert(s.push(x).drop_last() =~= s);
}

proof fn lemma_split_append(s: Seq<char>, t: Seq<char>, c: char)
    requires
        forall|i: int| 0 <= i < t.len() ==> #[trigger] t[i] != c,
    ensures
        split_on(s + t, c) == split_on(s, c).update(split_on(s, c).len() - 1, split_on(s, c).last() + t),
        split_on(s + t, c).len() == split_on(s, c).len(),
    decreases t.len(),
{
    lemma_split_on_nonempty(s, c);
    let sp = split_on(s, c);
    if t.len() == 0 {
        assert(s + t =~= s);
        assert(sp.last() + t =~= sp.last());
        assert(sp.update(sp.len() - 1, sp.last()) =~= sp);
    } else {
        let t0 = t.drop_last();
        lemma_split_append(s, t0, c);
        assert((s + t0).push(t.last()) =~= s + t);
        lemma_split_push(s + t0, t.last(), c);
        let p = split_on(s + t0, c);
        assert(p.last() == sp.last() + t0);
        assert(t[t.len() - 1] != c);
        assert(p.len() == sp.len());
        assert(p.last().push(t.last()) =~= sp.last() + t);
        assert(p.update(p.len() - 1, p.last().push(t.last())) =~= sp.update(sp.len() - 1, sp.last() + t));
    }
}

proof fn lemma_trim_start_white(w: Seq<char>, b: Seq<char>, i: int)
    requires
        all_white(w),
        b.len() > 0,
        !white_space(b[0]),
        0 <= i <= w.len(),
    ensures
        trim_start(w + b, i) == w.len(),
    decreases w.len() - i,
{
    if i < w.len() {
        assert((w + b)[i] == w[i]);
        lemma_trim_start_white(w, b, i + 1);
    } else {
        assert((w + b)[i] == b[0]);
    }
}

proof fn lemma_trim_all_white(w: Seq<char>, i: int)
    requires
        all_white(w),
        0 <= i <= w.len(),
    ensures
        trim_start(w, i) == w.len(),
    decreases w.len() - i,
{
    if i < w.len() {
        lemma_trim_all_white(w, i + 1);
    }
}

proof fn lemma_trim_end_le(l: Seq<char>, j: int)
    ensures
        trim_end(l, j) <= j,
    decreases j,
{
    if 0 < j <= l.len() && white_space(l[j - 1]) {
        lemma_trim_end_le(l, j - 1);
    }
}

proof fn lemma_trimmed_white(w: Seq<char>)
    requires
        all_white(w),
    ensures
        trimmed(w).len() == 0,
{
    lemma_trim_all_white(w, 0);
    lemma_trim_end_le(w, w.len() as int);
}

proof fn lemma_trimmed_body(w: Seq<char>, b: Seq<char>)
    requires
        all_white(w),
        good_body(b),
    ensures
        trimmed(w + b) == b,
{
    lemma_trim_start_white(w, b, 0);
    let l = w + b;
    assert(l[l.len() - 1] == b.last());
    assert(trim_end(l, l.len() as int) == l.len());
    assert(l.subrange(w.len() as int, l.len() as int) =~= b);
}

proof fn lemma_nonblank_white_last(r: Seq<Seq<char>>)
    requires
        r.len() > 0,
        all_white(r.last()),
    ensures
        nonblank_trimmed(r) == nonblank_trimmed(r.drop_last()),
{
    lemma_trimmed_white(r.last());
}

/// The empty text is clean and has no pieces.
pub proof fn lemma_clean_empty()
    ensures
        clean(Seq::empty()),
        pieces(Seq::empty()) == Seq::<Seq<char>>::empty(),
{
    reveal(clean);
    reveal(pieces);
    assert(split_on(Seq::<char>::empty(), ';') == seq![Seq::<char>::empty()]);
    assert(seq![Seq::<char>::empty()].drop_last() =~= Seq::<Seq<char>>::empty());
    lemma_nonblank_white_last(seq![Seq::<char>::empty()]);
}

/// A newline after a clean text keeps it clean and adds no piece.
pub proof fn lemma_clean_newline(x: Seq<char>)
    requires
        clean(x),
    ensures
        clean(x.push('\n')),
        pieces(x.push('\n')) == pieces(x),
{
    reveal(clean);
    reveal(pieces);
    lemma_split_on_nonempty(x, ';');
    lemma_split_push(x, '\n', ';');
    let s = split_on(x, ';');
    let s2 = split_on(x.push('\n'), ';');
    assert(s2.last() == s.last().push('\n'));
    assert(all_white(s2.last()));
    lemma_nonblank_white_last(s);
    lemma_nonblank_white_last(s2);
    assert(s2.drop_last() =~= s.drop_last());
}

/// A statement text and its `;` after a clean text add that statement.
pub proof fn lemma_clean_body(x: Seq<char>, b: Seq<char>)
    requires
        clean(x),
        good_body(b),
    ensures
        clean((x + b).push(';')),
        pieces((x + b).push(';')) == pieces(x).push(b),
{
    reveal(clean);
    reveal(pieces);
    lemma_split_on_nonempty(x, ';');
    let s = split_on(x, ';');
    lemma_split_append(x, b, ';');
    let s1 = split_on(x + b, ';');
    lemma_split_push(x + b, ';', ';');
    let s2 = split_on((x + b).push(';'), ';');
    assert(s2 == s1.push(Seq::empty()));
    assert(all_white(s2.last()));
    lemma_nonblank_white_last(s2);
    assert(s2.drop_last() == s1);
    assert(s1.drop_last() =~= s.drop_last());
    assert(s1.last() == s.last() + b);
    lemma_trimmed_body(s.last(), b);
    lemma_nonblank_white_last(s);
}

proof fn lemma_join_update_last(ls: Seq<Seq<char>>, x: char)
    requires
        ls.len() > 0,
    ensures
        join_lines(ls.update(ls.len() - 1, ls.last().push(x))) == join_lines(ls).push(x),
{
    let u = ls.update(ls.len() - 1, ls.last().push(x));
    if ls.len() == 1 {
    } else {
        assert(u.drop_last() =~= ls.drop_last());
        assert(join_lines(u) =~= join_lines(ls).push(x));
    }
}

proof fn lemma_join_split(s: Seq<char>)
    ensures
        join_lines(split_on(s, '\n')) == s,
    decreases s.len(),
{
    if s.len() > 0 {
        let s0 = s.drop_last();
        lemma_join_split(s0);
        lemma_split_on_nonempty(s0, '\n');
        assert(s0.push(s.last()) =~= s);
        lemma_split_push(s0, s.last(), '\n');
        let p = split_on(s0, '\n');
        if s.last() == '\n' {
            let q = p.push(Seq::<char>::empty());
            assert(q.drop_last() =~= p);
            assert(join_lines(q) =~= s);
        } else {
            lemma_join_update_last(p, s.last());
        }
    } else {
        assert(split_on(s, '\n') == seq![Seq::<char>::empty()]);
    }
}

proof fn lemma_split_chars(s: Seq<char>, c: char)
    requires
        no_slash_cr(s),
    ensures
        forall|k: int| 0 <= k < split_on(s, c).len() ==> no_slash_cr(#[trigger] split_on(s, c)[k]),
    decreases s.len(),
{
    if s.len() > 0 {
        let s0 = s.drop_last();
        assert(no_slash_cr(s0)) by {
            assert forall|i: int| 0 <= i < s0.len() implies (#[trigger] s0[i]) != '/' && s0[i] != '\r' by {
                assert(s0[i] == s[i]);
            }
        }
        lemma_split_chars(s0, c);
        lemma_split_on_nonempty(s0, c);
        assert(s0.push(s.last()) =~= s);
        lemma_split_push(s0, s.last(), c);
        let p = split_on(s0, c);
        assert(s[s.len() - 1] == s.last());
        if s.last() != c {
            assert(no_slash_cr(p.last()));
            assert forall|k: int| 0 <= k < split_on(s, c).len() implies no_slash_cr(#[trigger] split_on(s, c)[k]) by {
                if k == p.len() - 1 {
                    let l = p.last().push(s.last());
                    assert forall|i: int| 0 <= i < l.len() implies (#[trigger] l[i]) != '/' && l[i] != '\r' by {
                        if i < p.last().len() {
                            assert(l[i] == p.last()[i]);
                        }
                    }
                }
            }
        }
    } else {
        assert(split_on(s, c) == seq![Seq::<char>::empty()]);
    }
}

proof fn lemma_no_comment(l: Seq<char>, k: int)
    requires
        no_slash_cr(l),
        0 <= k,
    ensures
        comment_start(l, k) is None,
    decreases l.len() - k,
{
    if k + 1 < l.len() {
        lemma_no_comment(l, k + 1);
    }
}

/// A text that ends with `;` and holds no `/` or carriage return loses
/// nothing to comment removal.
pub proof fn lemma_without_comments_plain(s: Seq<char>)
    requires
        s.len() > 0,
        s.last() == ';',
        no_slash_cr(s),
    ensures
        without_comments(s) == s,
{
    let p = split_on(s, '\n');
    lemma_split_on_nonempty(s, '\n');
    lemma_split_chars(s, '\n');
    assert(s.drop_last().push(s.last()) =~= s);
    lemma_split_push(s.drop_last(), s.last(), '\n');
    lemma_split_on_nonempty(s.drop_last(), '\n');
    assert(p.last().len() > 0);
    let body = p.drop_last().map_values(|l: Seq<char>| strip_cr(l));
    assert forall|k: int| 0 <= k < p.drop_last().len() implies #[trigger] body[k] == p[k] by {
        assert(no_slash_cr(p[k]));
        if p[k].len() > 0 {
            assert(p[k][p[k].len() - 1] != '\r');
        }
    }
    assert(body.push(p.last()) =~= p);
    assert(text_lines(s) == p);
    let u = p.map_values(|l: Seq<char>| uncommented(l));
    assert forall|k: int| 0 <= k < p.len() implies #[trigger] u[k] == p[k] by {
        assert(no_slash_cr(p[k]));
        lemma_no_comment(p[k], 0);
    }
    assert(u =~= p);
    lemma_join_split(s);
}

/// A text whose tail from `k` is `a + b` holds `a` at `k` and `b` after it.
pub proof fn lemma_tail_split(s: Seq<char>, k: int, a: Seq<char>, b: Seq<char>)
    requires
        0 <= k <= s.len(),
        s.subrange(k, s.len() as int) == a + b,
    ensures
        tag_at(s, k, a),
        s.subrange(k, k + a.len()) == a,
        s.subrange(k + a.len(), s.len() as int) == b,
        forall|j: int| 0 <= j < a.len() ==> s[k + j] == #[trigger] a[j],
{
    assert(s.subrange(k, s.len() as int).len() == s.len() - k);
    assert((a + b).len() == a.len() + b.len());
    assert forall|j: int| 0 <= j < a.len() implies s[k + j] == #[trigger] a[j] by {
        assert(s.subrange(k, s.len() as int)[j] == s[k + j]);
        assert((a + b)[j] == a[j]);
    }
    assert(s.subrange(k, k + a.len()) =~= a);
    assert forall|j: int| 0 <= j < b.len() implies s.subrange(k + a.len(), s.len() as int)[j] == #[trigger] b[j] by {
        assert(s.subrange(k, s.len() as int)[a.len() + j] == s[k + a.len() + j]);
        assert((a + b)[a.len() + j] == b[j]);
    }
    assert(s.subrange(k + a.len(), s.len() as int) =~= b);
}

/// Decimal renderings are non-empty runs of digits that read back as the
/// number.
pub proof fn lemma_decimal(n: nat)
    ensures
        decimal(n).len() >= 1,
        forall|i: int| 0 <= i < decimal(n).len() ==> is_digit(#[trigger] decimal(n)[i]),
        digits_value(decimal(n)) == n,
    decreases n,
{
    if n >= 10 {
        lemma_decimal(n / 10);
        let d = decimal(n / 10);
        let x = digit_char(n % 10);
        assert(decimal(n) == d.push(x));
        assert(d.push(x).drop_last() =~= d);
        assert((x as int) - ('0' as int) == n % 10);
        assert(forall|i: int| 0 <= i < d.len() ==> d.push(x)[i] == d[i]);
        assert(digits_value(d.push(x)) == digits_value(d) * 10 + ((x as int) - ('0' as int)) as nat);
        assert((n / 10) * 10 + n % 10 == n);
    } else {
        let x = digit_char(n);
        assert(decimal(n) == seq![x]);
        assert(seq![x].drop_last() =~= Seq::<char>::empty());
        assert((x as int) - ('0' as int) == n);
        assert(seq![x].last() == x);
        assert(digits_value(seq![x]) == digits_value(seq![x].drop_last()) * 10 + ((x as int) - ('0' as int)) as nat);
    }
}

proof fn lemma_digits_end(s: Seq<char>, i: int, k: int)
    requires
        0 <= i <= k <= s.len(),
        forall|j: int| i <= j < k ==> is_digit(#[trigger] s[j]),
        k == s.len() || !is_digit(s[k]),
    ensures
        digits_end(s, i) == k,
    decreases k - i,
{
    if i < k {
        lemma_digits_end(s, i + 1, k);
    }
}

/// `<r>[<t>]` for a one-letter register name.
pub open spec fn reg_text(r: char, t: nat) -> Seq<char> {
    seq![r, '['] + decimal(t) + seq![']']
}

proof fn lemma_qref(t: usize)
    ensures
        qref(t) == reg_text('q', t as nat),
{
    reveal_strlit("q[");
    reveal_strlit("]");
    assert(qref(t) =~= reg_text('q', t as nat));
}

/// A one-letter register reference written at `i` reads as that register
/// and index, ending right after it.
pub proof fn lemma_reg_ref(s: Seq<char>, i: int, r: char, t: usize)
    requires
        r == 'q' || r == 'c',
        tag_at(s, i, reg_text(r, t as nat)),
    ensures
        reg_ref_at(s, i) == Some(((seq![r], t), i + reg_text(r, t as nat).len())),
{
    let d = decimal(t as nat);
    lemma_decimal(t as nat);
    let rt = reg_text(r, t as nat);
    let e = i + 2 + d.len();
    assert forall|j: int| 0 <= j < rt.len() implies s[i + j] == #[trigger] rt[j] by {
        assert(s.subrange(i, i + rt.len())[j] == s[i + j]);
    }
    assert(rt[0] == r && rt[1] == '[');
    assert(s[i] == r);
    assert(s[i + 1] == '[');
    assert(rt[e - i] == ']');
    assert(s[e] == ']');
    assert(!is_ident_char('['));
    assert(ident_rest_end(s, i + 1) == i + 1);
    assert(ident_end(s, i) == Some(i + 1));
    assert(skip_ws(s, i + 1) == i + 1);
    assert forall|j: int| i + 2 <= j < e implies is_digit(#[trigger] s[j]) by {
        assert(s[j] == rt[j - i]);
        assert(rt[j - i] == d[j - i - 2]);
    }
    assert(rt[2] == d[0]);
    assert(s[i + 2] == d[0]);
    assert(skip_ws(s, i + 2) == i + 2);
    lemma_digits_end(s, i + 2, e);
    assert forall|m: int| 0 <= m < d.len() implies s.subrange(i + 2, e)[m] == #[trigger] d[m] by {
        assert(rt[2 + m] == d[m]);
        assert(s[i + (2 + m)] == rt[2 + m]);
    }
    assert(s.subrange(i + 2, e) =~= d);
    assert(skip_ws(s, e) == e);
    assert(s.subrange(i, i + 1) =~= seq![r]);
}

/// `,q[a],q[b],...` for the given qubits, built from the front.
pub open spec fn more_refs(qs: Seq<usize>) -> Seq<char>
    decreases qs.len(),
{
    if qs.len() == 0 { Seq::empty() } else { seq![','] + qref(qs[0]) + more_refs(qs.drop_first()) }
}

proof fn lemma_more_refs_push(qs: Seq<usize>, y: usize)
    ensures
        more_refs(qs.push(y)) == more_refs(qs) + seq![','] + qref(y),
    decreases qs.len(),
{
    if qs.len() == 0 {
        assert(qs.push(y).drop_first() =~= Seq::<usize>::empty());
        assert(qs.push(y)[0] == y);
        assert(more_refs(qs.push(y)) == seq![','] + qref(y) + more_refs(Seq::<usize>::empty()));
        assert(more_refs(qs) == Seq::<char>::empty());
        assert(more_refs(qs.push(y)) =~= more_refs(qs) + seq![','] + qref(y));
    } else {
        lemma_more_refs_push(qs.drop_first(), y);
        assert(qs.push(y).drop_first() =~= qs.drop_first().push(y));
        assert(more_refs(qs.push(y)) =~= more_refs(qs) + seq![','] + qref(y));
    }
}

proof fn lemma_qubit_list_front(qs: Seq<usize>)
    requires
        qs.len() >= 1,
    ensures
        qubit_list(qs) == qref(qs[0]) + more_refs(qs.drop_first()),
    decreases qs.len(),
{
    if qs.len() == 1 {
        assert(qs.drop_first() =~= Seq::<usize>::empty());
        assert(qubit_list(qs) =~= qref(qs[0]) + more_refs(qs.drop_first()));
    } else {
        let a = qs.drop_last();
        lemma_qubit_list_front(a);
        lemma_more_refs_push(a.drop_first(), qs.last());
        assert(a.drop_first().push(qs.last()) =~= qs.drop_first());
        assert(a[0] == qs[0]);
        reveal_strlit(",");
        assert(qubit_list(qs) =~= qref(qs[0]) + more_refs(qs.drop_first()));
    }
}

/// The register references of qubits of register `q`.
pub open spec fn q_refs(qs: Seq<usize>) -> Seq<(Seq<char>, usize)> {
    qs.map_values(|q: usize| (seq!['q'], q))
}

proof fn lemma_reg_rest(s: Seq<char>, acc: Seq<(Seq<char>, usize)>, k: int, qs: Seq<usize>)
    requires
        0 <= k <= s.len(),
        s.subrange(k, s.len() as int) == more_refs(qs),
    ensures
        reg_list_rest(s, acc, k) == Some((acc + q_refs(qs), s.len() as int)),
    decreases qs.len(),
{
    if qs.len() == 0 {
        assert(k == s.len());
        assert(acc + q_refs(qs) =~= acc);
    } else {
        let m = more_refs(qs);
        let q0 = qs[0];
        lemma_qref(q0);
        let rt = reg_text('q', q0 as nat);
        assert(m == seq![','] + rt + more_refs(qs.drop_first()));
        assert(m =~= seq![','] + (rt + more_refs(qs.drop_first())));
        lemma_tail_split(s, k, seq![','], rt + more_refs(qs.drop_first()));
        assert(seq![','][0] == ',');
        assert(s[k + 0] == ',');
        assert(skip_ws(s, k) == k);
        lemma_tail_split(s, k + 1, rt, more_refs(qs.drop_first()));
        assert(rt[0] == 'q');
        assert(s[k + 1 + 0] == 'q');
        assert(skip_ws(s, k + 1) == k + 1);
        lemma_reg_ref(s, k + 1, 'q', q0);
        let k2 = k + 1 + rt.len();
        lemma_reg_rest(s, acc.push((seq!['q'], q0)), k2, qs.drop_first());
        assert(acc.push((seq!['q'], q0)) + q_refs(qs.drop_first()) =~= acc + q_refs(qs));
    }
}

/// A list of qubit references written from `i` to the end reads as those
/// references.
pub proof fn lemma_reg_list(s: Seq<char>, i: int, qs: Seq<usize>)
    requires
        qs.len() >= 1,
        0 <= i <= s.len(),
        s.subrange(i, s.len() as int) == qubit_list(qs),
    ensures
        reg_list_at(s, i) == Some((q_refs(qs), s.len() as int)),
{
    lemma_qubit_list_front(qs);
    lemma_qref(qs[0]);
    let rt = reg_text('q', qs[0] as nat);
    lemma_tail_split(s, i, rt, more_refs(qs.drop_first()));
    lemma_reg_ref(s, i, 'q', qs[0]);
    let k = i + rt.len();
    lemma_reg_rest(s, seq![(seq!['q'], qs[0])], k, qs.drop_first());
    assert(seq![(seq!['q'], qs[0])] + q_refs(qs.drop_first()) =~= q_refs(qs));
}

proof fn lemma_tag_first(s: Seq<char>, lit: Seq<char>)
    requires
        lit.len() > 0,
        s.len() > 0,
        s[0] != lit[0],
    ensures
        !tag_at(s, 0, lit),
        keyword_end(s, lit) is None,
{
    if tag_at(s, 0, lit) {
        assert(s.subrange(0, lit.len() as int)[0] == s[0]);
    }
}

proof fn lemma_keywords_fail(s: Seq<char>)
    requires
        s.len() > 1,
        s[0] != 'o' && s[0] != 'O',
    ensures
        header_at(s) is None,
        s[0] != 'i' ==> include_at(s) is None,
        s[0] != 'q' ==> qreg_at(s) is None,
        (s[0] != 'c' || s[1] != 'r') ==> creg_at(s) is None,
        s[0] != 'm' ==> measure_at(s) is None,
        s[0] != 'b' ==> barrier_at(s) is None,
{
    reveal_strlit("openqasm");
    reveal_strlit("OPENQASM");
    reveal_strlit("include");
    reveal_strlit("qreg");
    reveal_strlit("creg");
    reveal_strlit("measure");
    reveal_strlit("barrier");
    assert(!tag_any_case(s, 0, "openqasm"@, "OPENQASM"@)) by {
        assert(s[0 + 0int] != "openqasm"@[0int] && s[0 + 0int] != "OPENQASM"@[0int]);
    }
    if s[0] != 'i' { lemma_tag_first(s, "include"@); }
    if s[0] != 'q' { lemma_tag_first(s, "qreg"@); }
    if s[0] != 'c' { lemma_tag_first(s, "creg"@); }
    if s[0] == 'c' && s[1] != 'r' {
        if tag_at(s, 0, "creg"@) {
            assert(s.subrange(0, 4)[1] == s[1]);
        }
    }
    if s[0] != 'm' { lemma_tag_first(s, "measure"@); }
    if s[0] != 'b' { lemma_tag_first(s, "barrier"@); }
}

proof fn lemma_ident_run(s: Seq<char>, i: int, k: int)
    requires
        0 <= i <= k < s.len(),
        forall|j: int| i <= j < k ==> 'a' <= #[trigger] s[j] && s[j] <= 'z',
        s[k] == ' ',
    ensures
        ident_rest_end(s, i) == k,
    decreases k - i,
{
    if i < k {
        assert(is_ident_char(s[i]));
        lemma_ident_run(s, i + 1, k);
    } else {
        assert(!is_ident_char(' '));
    }
}

/// A gate name as the export writes it: lowercase letters, not starting
/// like a keyword.
pub open spec fn plain_name(name: Seq<char>) -> bool {
    &&& name.len() > 0
    &&& forall|j: int| 0 <= j < name.len() ==> 'a' <= #[trigger] name[j] && name[j] <= 'z'
    &&& name[0] != 'o' && name[0] != 'i' && name[0] != 'q' && name[0] != 'm' && name[0] != 'b'
    &&& name[0] == 'c' ==> name.len() > 1 && name[1] != 'r'
}

/// The text of a gate statement: the name, a space, the qubits.
pub open spec fn gate_body(name: Seq<char>, qs: Seq<usize>) -> Seq<char> {
    name + seq![' '] + qubit_list(qs)
}

/// A gate statement as the export writes it reads as that gate.
pub proof fn lemma_gate_stmt(name: Seq<char>, qs: Seq<usize>)
    requires
        plain_name(name),
        qs.len() >= 1,
    ensures
        statement_at(gate_body(name, qs)) == Some(StmtView::Gate { name, params: Seq::empty(), qubits: q_refs(qs) }),
{
    let s = gate_body(name, qs);
    let e = name.len() as int;
    assert(s =~= name + (seq![' '] + qubit_list(qs)));
    lemma_tail_split_whole(s, name, seq![' '] + qubit_list(qs));
    assert(s[e] == ' ');
    lemma_qubit_list_front(qs);
    lemma_qref(qs[0]);
    assert(s.subrange(e + 1, s.len() as int) =~= qubit_list(qs));
    assert(qubit_list(qs)[0] == 'q');
    assert(s[e + 1] == qubit_list(qs)[0]);
    assert(s[0] == name[0]);
    if name[0] == 'c' {
        assert(s[1] == name[1]);
    }
    lemma_keywords_fail(s);
    lemma_ident_run(s, 1, e);
    assert(ident_end(s, 0) == Some(e));
    assert(!char_at(s, e, '('));
    assert(skip_ws(s, e + 1) == e + 1);
    assert(skip_ws(s, e) == e + 1);
    lemma_reg_list(s, e + 1, qs);
    assert(s.subrange(0, e) =~= name);
    assert(blank_from(s, s.len() as int));
}

/// `a + b` holds `a` from the start and `b` after it.
pub proof fn lemma_tail_split_whole(s: Seq<char>, a: Seq<char>, b: Seq<char>)
    requires
        s == a + b,
    ensures
        forall|j: int| 0 <= j < a.len() ==> s[j] == #[trigger] a[j],
        forall|j: int| 0 <= j < b.len() ==> s[a.len() + j] == #[trigger] b[j],
        s.subrange(a.len() as int, s.len() as int) == b,
{
    assert(s.subrange(a.len() as int, s.len() as int) =~= b);
}


/// Every character is a plain one.
pub open spec fn all_plain(s: Seq<char>) -> bool {
    forall|i: int| 0 <= i < s.len() ==> plain_char(#[trigger] s[i])
}

proof fn lemma_plain_add(a: Seq<char>, b: Seq<char>)
    requires
        all_plain(a),
        all_plain(b),
    ensures
        all_plain(a + b),
{
    assert forall|i: int| 0 <= i < (a + b).len() implies plain_char(#[trigger] (a + b)[i]) by {
        if i < a.len() {
            assert((a + b)[i] == a[i]);
        } else {
            assert((a + b)[i] == b[i - a.len()]);
        }
    }
}

proof fn lemma_reg_text_plain(r: char, t: nat)
    requires
        r == 'q' || r == 'c',
    ensures
        all_plain(reg_text(r, t)),
        reg_text(r, t)[0] == r,
        reg_text(r, t).last() == ']',
        reg_text(r, t).len() >= 4,
{
    lemma_decimal(t);
    let d = decimal(t);
    assert forall|i: int| 0 <= i < d.len() implies plain_char(#[trigger] d[i]) by {
        assert(is_digit(d[i]));
    }
    lemma_plain_add(seq![r, '['], d);
    lemma_plain_add(seq![r, '['] + d, seq![']']);
}

proof fn lemma_qubit_list_plain(qs: Seq<usize>)
    requires
        qs.len() >= 1,
    ensures
        all_plain(qubit_list(qs)),
        qubit_list(qs)[0] == 'q',
        qubit_list(qs).last() == ']',
        qubit_list(qs).len() >= 4,
    decreases qs.len(),
{
    lemma_qref(qs.last());
    lemma_reg_text_plain('q', qs.last() as nat);
    if qs.len() == 1 {
        lemma_qref(qs[0]);
    } else {
        lemma_qubit_list_plain(qs.drop_last());
        reveal_strlit(",");
        lemma_plain_add(qubit_list(qs.drop_last()), ","@);
        lemma_plain_add(qubit_list(qs.drop_last()) + ","@, qref(qs.last()));
    }
}

/// The OpenQASM name of a gate kind the export writes by name.
pub open spec fn qasm_name(g: GateType) -> Seq<char> {
    match g {
        GateType::H => "h"@,
        GateType::X => "x"@,
        GateType::Y => "y"@,
        GateType::Z => "z"@,
        GateType::S => "s"@,
        GateType::T => "t"@,
        GateType::Cnot => "cx"@,
        GateType::Cz => "cz"@,
        GateType::Swap => "swap"@,
        GateType::Toffoli => "ccx"@,
        _ => "barrier"@,
    }
}

/// The qubits a gate's line lists: controls first, then targets.
pub open spec fn qasm_qubits(g: PlacedGateView) -> Seq<usize> {
    match g.gate {
        GateType::Cnot => seq![g.controls[0], g.targets[0]],
        GateType::Cz => seq![g.controls[0], g.targets[0]],
        GateType::Swap => seq![g.targets[0], g.targets[1]],
        GateType::Toffoli => seq![g.controls[0], g.controls[1], g.targets[0]],
        _ => seq![g.targets[0]],
    }
}

/// A gate kind with no angle that the export writes and the import reads
/// back as itself.
pub open spec fn plain_gate(g: GateType) -> bool {
    g is H || g is X || g is Y || g is Z || g is S || g is T || g is Cnot || g is Cz || g is Swap || g is Toffoli
        || g is Barrier
}

/// The statement text the export writes for a gate.
pub open spec fn gate_text(g: PlacedGateView) -> Seq<char> {
    gate_body(qasm_name(g.gate), qasm_qubits(g))
}

proof fn lemma_qubit_list_small(a: usize, b: usize, c: usize)
    ensures
        qubit_list(seq![a]) == qref(a),
        qubit_list(seq![a, b]) == qref(a) + ","@ + qref(b),
        qubit_list(seq![a, b, c]) == qref(a) + ","@ + qref(b) + ","@ + qref(c),
{
    assert(seq![a, b].drop_last() =~= seq![a]);
    assert(seq![a, b, c].drop_last() =~= seq![a, b]);
    assert(qubit_list(seq![a]) == qref(a));
    assert(seq![a, b].last() == b);
    assert(qubit_list(seq![a, b]) == qubit_list(seq![a]) + ","@ + qref(b));
    assert(seq![a, b, c].last() == c);
    assert(qubit_list(seq![a, b, c]) == qubit_list(seq![a, b]) + ","@ + qref(c));
}

/// The line the export writes for a valid gate of a plain kind is its
/// statement text and a `;`.
pub proof fn lemma_gate_line(g: PlacedGateView, angle: Seq<char>)
    requires
        plain_gate(g.gate),
        g.targets.len() == spec_num_qubits(g.gate) - spec_num_controls(g.gate),
        g.controls.len() == spec_num_controls(g.gate),
    ensures
        gate_code(g, angle) == Some(gate_text(g) + ";"@),
        good_body(gate_text(g)),
{
    let qs = qasm_qubits(g);
    let name = qasm_name(g.gate);
    reveal_strlit("h");
    reveal_strlit("x");
    reveal_strlit("y");
    reveal_strlit("z");
    reveal_strlit("s");
    reveal_strlit("t");
    reveal_strlit("cx");
    reveal_strlit("cz");
    reveal_strlit("swap");
    reveal_strlit("ccx");
    reveal_strlit("barrier");
    reveal_strlit("h ");
    reveal_strlit("x ");
    reveal_strlit("y ");
    reveal_strlit("z ");
    reveal_strlit("s ");
    reveal_strlit("t ");
    reveal_strlit("cx ");
    reveal_strlit("cz ");
    reveal_strlit("swap ");
    reveal_strlit("ccx ");
    reveal_strlit("barrier ");
    let t0 = g.targets[0];
    lemma_qubit_list_small(qs[0], if qs.len() > 1 { qs[1] } else { 0 }, if qs.len() > 2 { qs[2] } else { 0 });
    if qs.len() == 1 {
        assert(qs =~= seq![qs[0]]);
    } else if qs.len() == 2 {
        assert(qs =~= seq![qs[0], qs[1]]);
    } else {
        assert(qs =~= seq![qs[0], qs[1], qs[2]]);
    }
    assert(gate_text(g) =~= name + seq![' '] + qubit_list(qs));
    match g.gate {
        GateType::Barrier => {
            assert(g.targets =~= seq![t0]);
            assert(gate_code(g, angle) == Some("barrier "@ + qubit_list(g.targets) + ";"@));
            assert("barrier "@ =~= name + seq![' ']);
        },
        GateType::Cnot => {
            assert("cx "@ =~= name + seq![' ']);
        },
        GateType::Cz => {
            assert("cz "@ =~= name + seq![' ']);
        },
        GateType::Swap => {
            assert("swap "@ =~= name + seq![' ']);
        },
        GateType::Toffoli => {
            assert("ccx "@ =~= name + seq![' ']);
        },
        _ => {},
    }
    assert(gate_code(g, angle) == Some(gate_text(g) + ";"@));
    lemma_qubit_list_plain(qs);
    assert forall|i: int| 0 <= i < name.len() implies plain_char(#[trigger] name[i]) && 'a' <= name[i] && name[i] <= 'z' by {}
    lemma_plain_add(name, seq![' ']);
    lemma_plain_add(name + seq![' '], qubit_list(qs));
    let b = gate_text(g);
    assert(b[0] == name[0]);
    assert(b.last() == qubit_list(qs).last());
}


/// The statement a gate's text reads as.
pub open spec fn gate_stmt_view(g: PlacedGateView) -> StmtView {
    if g.gate is Barrier {
        StmtView::Barrier(q_refs(qasm_qubits(g)))
    } else {
        StmtView::Gate { name: qasm_name(g.gate), params: Seq::empty(), qubits: q_refs(qasm_qubits(g)) }
    }
}

proof fn lemma_keyword_at(s: Seq<char>, w: Seq<char>, rest: Seq<char>)
    requires
        s == w + seq![' '] + rest,
        rest.len() > 0,
        !is_space(rest[0]),
    ensures
        keyword_end(s, w) == Some(w.len() + 1int),
        s.subrange(w.len() + 1int, s.len() as int) == rest,
{
    assert(s =~= w + (seq![' '] + rest));
    lemma_tail_split_whole(s, w, seq![' '] + rest);
    assert(s.subrange(0, w.len() as int) =~= w);
    assert(s[w.len() as int] == ' ');
    assert(s[w.len() + 1int] == rest[0]);
    assert(skip_ws(s, w.len() + 1int) == w.len() + 1);
    assert(skip_ws(s, w.len() as int) == w.len() + 1);
    assert(s.subrange(w.len() + 1int, s.len() as int) =~= rest);
}

/// A barrier's text reads as a barrier on its qubits.
pub proof fn lemma_barrier_stmt(qs: Seq<usize>)
    requires
        qs.len() >= 1,
    ensures
        statement_at(gate_body("barrier"@, qs)) == Some(StmtView::Barrier(q_refs(qs))),
{
    reveal_strlit("barrier");
    let s = gate_body("barrier"@, qs);
    lemma_qubit_list_plain(qs);
    lemma_keyword_at(s, "barrier"@, qubit_list(qs));
    assert(s[0] == 'b');
    lemma_keywords_fail(s);
    lemma_reg_list(s, 8, qs);
    assert(blank_from(s, s.len() as int));
}

/// A gate's text reads as its statement.
pub proof fn lemma_gate_text_stmt(g: PlacedGateView)
    requires
        plain_gate(g.gate),
        g.targets.len() == spec_num_qubits(g.gate) - spec_num_controls(g.gate),
        g.controls.len() == spec_num_controls(g.gate),
    ensures
        statement_at(gate_text(g)) == Some(gate_stmt_view(g)),
{
    reveal_strlit("h");
    reveal_strlit("x");
    reveal_strlit("y");
    reveal_strlit("z");
    reveal_strlit("s");
    reveal_strlit("t");
    reveal_strlit("cx");
    reveal_strlit("cz");
    reveal_strlit("swap");
    reveal_strlit("ccx");
    reveal_strlit("barrier");
    let qs = qasm_qubits(g);
    if g.gate is Barrier {
        lemma_barrier_stmt(qs);
    } else {
        let name = qasm_name(g.gate);
        assert(plain_name(name));
        lemma_gate_stmt(name, qs);
    }
}

/// The statement text of a measurement of qubit `q` into bit `k`.
pub open spec fn measure_body(q: usize, k: nat) -> Seq<char> {
    "measure"@ + seq![' '] + reg_text('q', q as nat) + seq![' ', '-', '>', ' '] + reg_text('c', k)
}

/// A measurement line is its statement text and a `;`.
pub proof fn lemma_measure_line(q: usize, k: usize)
    ensures
        measure_line(q, k as nat) == measure_body(q, k as nat) + ";"@,
        good_body(measure_body(q, k as nat)),
{
    reveal_strlit("measure");
    reveal_strlit("measure ");
    reveal_strlit(" -> c[");
    reveal_strlit("];");
    reveal_strlit(";");
    lemma_qref(q);
    let rq = reg_text('q', q as nat);
    let rc = reg_text('c', k as nat);
    let arrow = seq![' ', '-', '>', ' '];
    let s = measure_body(q, k as nat);
    assert(measure_line(q, k as nat) =~= s + ";"@);
    lemma_reg_text_plain('q', q as nat);
    lemma_reg_text_plain('c', k as nat);
    assert(all_plain("measure"@ + seq![' '])) by {
        assert forall|i: int| 0 <= i < ("measure"@ + seq![' ']).len() implies plain_char(#[trigger] ("measure"@ + seq![' '])[i]) by {}
    }
    assert(all_plain(arrow));
    lemma_plain_add("measure"@ + seq![' '], rq);
    lemma_plain_add("measure"@ + seq![' '] + rq, arrow);
    lemma_plain_add("measure"@ + seq![' '] + rq + arrow, rc);
    assert(s[0] == 'm');
    assert(s.last() == rc.last());
}

#[verifier::rlimit(100)]
proof fn lemma_measure_at(q: usize, k: usize)
    ensures
        measure_at(measure_body(q, k as nat)) == Some((StmtView::Measure { qubit: (seq!['q'], q), cbit: (seq!['c'], k) }, measure_body(q, k as nat).len() as int)),
        measure_body(q, k as nat)[0] == 'm',
        measure_body(q, k as nat).len() > 1,
{
    reveal_strlit("measure");
    reveal_strlit("->");
    let rq = reg_text('q', q as nat);
    let rc = reg_text('c', k as nat);
    let arrow = seq![' ', '-', '>', ' '];
    let s = measure_body(q, k as nat);
    lemma_reg_text_plain('q', q as nat);
    lemma_reg_text_plain('c', k as nat);
    assert(s[0] == 'm');
    assert(s =~= "measure"@ + seq![' '] + (rq + arrow + rc));
    lemma_keyword_at(s, "measure"@, rq + arrow + rc);
    let k1: int = 8 + rq.len() as int;
    assert(reg_ref_at(s, 8) == Some(((seq!['q'], q), k1))) by {
        assert(s.subrange(8, s.len() as int) =~= rq + (arrow + rc));
        lemma_tail_split(s, 8, rq, arrow + rc);
        lemma_reg_ref(s, 8, 'q', q);
    }
    assert(s.subrange(k1, s.len() as int) == arrow + rc) by {
        assert(s.subrange(8, s.len() as int) =~= rq + (arrow + rc));
        lemma_tail_split(s, 8, rq, arrow + rc);
    }
    assert(reg_ref_at(s, k1 + 4) == Some(((seq!['c'], k), s.len() as int))) by {
        lemma_tail_split(s, k1, arrow, rc);
        assert(s.subrange(k1 + 4, s.len() as int) =~= rc + Seq::<char>::empty());
        lemma_tail_split(s, k1 + 4, rc, Seq::<char>::empty());
        lemma_reg_ref(s, k1 + 4, 'c', k);
    }
    assert(skip_ws(s, k1) == k1 + 1 && tag_at(s, k1 + 1, "->"@) && skip_ws(s, k1 + 3) == k1 + 4) by {
        lemma_tail_split(s, k1, arrow, rc);
        assert(s[k1 + 0] == ' ');
        assert(s[k1 + 1] == '-');
        assert(s[k1 + 2] == '>');
        assert(s[k1 + 3] == ' ');
        assert(rc[0] == 'c');
        assert(s.subrange(k1 + 4, s.len() as int)[0] == s[k1 + 4]);
        assert(s[k1 + 4] == 'c');
        assert(skip_ws(s, k1 + 1) == k1 + 1);
        assert(s.subrange(k1 + 1, k1 + 3) =~= "->"@);
        assert(skip_ws(s, k1 + 4) == k1 + 4);
    }
}

/// A measurement's text reads as that measurement.
pub proof fn lemma_measure_stmt(q: usize, k: usize)
    ensures
        statement_at(measure_body(q, k as nat)) == Some(StmtView::Measure { qubit: (seq!['q'], q), cbit: (seq!['c'], k) }),
{
    let s = measure_body(q, k as nat);
    lemma_measure_at(q, k);
    lemma_keywords_fail(s);
    assert(blank_from(s, s.len() as int));
}

/// The text of a register declaration.
pub open spec fn reg_decl(word: Seq<char>, r: char, n: nat) -> Seq<char> {
    word + seq![' '] + reg_text(r, n)
}

/// `qreg q[n]` and `creg c[m]` read as those declarations.
pub proof fn lemma_reg_decl_stmts(n: usize, m: usize)
    ensures
        statement_at(reg_decl("qreg"@, 'q', n as nat)) == Some(StmtView::Qreg(seq!['q'], n)),
        statement_at(reg_decl("creg"@, 'c', m as nat)) == Some(StmtView::Creg(seq!['c'], m)),
        good_body(reg_decl("qreg"@, 'q', n as nat)),
        good_body(reg_decl("creg"@, 'c', m as nat)),
{
    reveal_strlit("qreg");
    reveal_strlit("creg");
    let sq = reg_decl("qreg"@, 'q', n as nat);
    let sc = reg_decl("creg"@, 'c', m as nat);
    lemma_reg_text_plain('q', n as nat);
    lemma_reg_text_plain('c', m as nat);
    lemma_keyword_at(sq, "qreg"@, reg_text('q', n as nat));
    lemma_keyword_at(sc, "creg"@, reg_text('c', m as nat));
    assert(sq[0] == 'q');
    assert(sc[0] == 'c' && sc[1] == 'r');
    lemma_keywords_fail(sq);
    lemma_keywords_fail(sc);
    assert(!tag_at(sc, 0, "qreg"@)) by {
        if tag_at(sc, 0, "qreg"@) {
            assert(sc.subrange(0, 4)[0] == sc[0]);
        }
    }
    assert(sq.subrange(5, sq.len() as int) =~= reg_text('q', n as nat) + Seq::<char>::empty());
    lemma_tail_split(sq, 5, reg_text('q', n as nat), Seq::<char>::empty());
    lemma_reg_ref(sq, 5, 'q', n);
    assert(sc.subrange(5, sc.len() as int) =~= reg_text('c', m as nat) + Seq::<char>::empty());
    lemma_tail_split(sc, 5, reg_text('c', m as nat), Seq::<char>::empty());
    lemma_reg_ref(sc, 5, 'c', m);
    assert(blank_from(sq, sq.len() as int));
    assert(blank_from(sc, sc.len() as int));
    assert(all_plain("qreg"@ + seq![' '])) by {
        assert forall|i: int| 0 <= i < ("qreg"@ + seq![' ']).len() implies plain_char(#[trigger] ("qreg"@ + seq![' '])[i]) by {}
    }
    assert(all_plain("creg"@ + seq![' '])) by {
        assert forall|i: int| 0 <= i < ("creg"@ + seq![' ']).len() implies plain_char(#[trigger] ("creg"@ + seq![' '])[i]) by {}
    }
    lemma_plain_add("qreg"@ + seq![' '], reg_text('q', n as nat));
    lemma_plain_add("creg"@ + seq![' '], reg_text('c', m as nat));
    assert(sq.last() == reg_text('q', n as nat).last());
    assert(sc.last() == reg_text('c', m as nat).last());
}


proof fn lemma_quote_run(s: Seq<char>, i: int, k: int)
    requires
        0 <= i <= k < s.len(),
        forall|j: int| i <= j < k ==> #[trigger] s[j] != '"',
        s[k] == '"',
    ensures
        quote_end(s, i) == k,
    decreases k - i,
{
    if i < k {
        lemma_quote_run(s, i + 1, k);
    }
}

/// The header line reads as the version-2.0 header.
pub proof fn lemma_header_stmt()
    ensures
        statement_at("OPENQASM 2.0"@) == Some(StmtView::Header("2.0"@)),
        good_body("OPENQASM 2.0"@),
{
    reveal_strlit("OPENQASM 2.0");
    reveal_strlit("openqasm");
    reveal_strlit("OPENQASM");
    reveal_strlit("2.0");
    let s = "OPENQASM 2.0"@;
    assert(s.len() == 12);
    assert(tag_any_case(s, 0, "openqasm"@, "OPENQASM"@)) by {
        assert forall|k: int| 0 <= k < 8 implies #[trigger] s[0 + k] == "openqasm"@[k] || s[0 + k] == "OPENQASM"@[k] by {
            if k == 0 {} else if k == 1 {} else if k == 2 {} else if k == 3 {} else if k == 4 {} else if k == 5 {} else if k == 6 {} else {}
        }
    }
    assert(skip_ws(s, 9) == 9);
    assert(skip_ws(s, 8) == 9);
    assert(sign_end(s, 9) == 9);
    assert(digits_end(s, 10) == 10);
    assert(digits_end(s, 9) == 10);
    assert(digits_end(s, 12) == 12);
    assert(digits_end(s, 11) == 12);
    assert(float_end(s, 9) == Some(12int));
    assert(number_end(s, 9) == Some(12int));
    assert(s.subrange(9, 12) =~= "2.0"@);
    assert(header_at(s) == Some((StmtView::Header("2.0"@), 12int)));
    assert(blank_from(s, 12));
    assert forall|i: int| 0 <= i < s.len() implies plain_char(#[trigger] s[i]) by {
        if i == 0 {} else if i == 1 {} else if i == 2 {} else if i == 3 {} else if i == 4 {} else if i == 5 {}
        else if i == 6 {} else if i == 7 {} else if i == 8 {} else if i == 9 {} else if i == 10 {} else {}
    }
}

/// The include line reads as the include of the standard gate library.
pub proof fn lemma_include_stmt()
    ensures
        statement_at("include \"qelib1.inc\""@) == Some(StmtView::Include("qelib1.inc"@)),
        good_body("include \"qelib1.inc\""@),
{
    reveal_strlit("include \"qelib1.inc\"");
    reveal_strlit("include");
    reveal_strlit("qelib1.inc");
    let s = "include \"qelib1.inc\""@;
    assert(s.len() == 20);
    assert(s[0] == 'i' && s[1] == 'n');
    lemma_keywords_fail(s);
    assert(s.subrange(0, 7) =~= "include"@);
    assert(skip_ws(s, 8) == 8);
    assert(skip_ws(s, 7) == 8);
    assert(keyword_end(s, "include"@) == Some(8int));
    assert forall|j: int| 9 <= j < 19 implies #[trigger] s[j] != '"' by {
        if j == 9 {} else if j == 10 {} else if j == 11 {} else if j == 12 {} else if j == 13 {}
        else if j == 14 {} else if j == 15 {} else if j == 16 {} else if j == 17 {} else {}
    }
    lemma_quote_run(s, 9, 19);
    assert(s.subrange(9, 19) =~= "qelib1.inc"@);
    assert(include_at(s) == Some((StmtView::Include("qelib1.inc"@), 20int)));
    assert(blank_from(s, 20));
    assert forall|i: int| 0 <= i < s.len() implies plain_char(#[trigger] s[i]) by {
        if i < 9 {
            if i == 0 {} else if i == 1 {} else if i == 2 {} else if i == 3 {} else if i == 4 {} else if i == 5 {}
            else if i == 6 {} else if i == 7 {} else {}
        } else {
            if i == 9 {} else if i == 10 {} else if i == 11 {} else if i == 12 {} else if i == 13 {}
            else if i == 14 {} else if i == 15 {} else if i == 16 {} else if i == 17 {} else if i == 18 {} else {}
        }
    }
}


proof fn lemma_nsc_add(a: Seq<char>, b: Seq<char>)
    requires
        no_slash_cr(a),
        no_slash_cr(b),
    ensures
        no_slash_cr(a + b),
{
    assert forall|i: int| 0 <= i < (a + b).len() implies (#[trigger] (a + b)[i]) != '/' && (a + b)[i] != '\r' by {
        if i < a.len() {
            assert((a + b)[i] == a[i]);
        } else {
            assert((a + b)[i] == b[i - a.len()]);
        }
    }
}

/// A statement text and its `;` after a clean text that holds no `/` or
/// carriage return.
pub proof fn lemma_push_body(x: Seq<char>, b: Seq<char>)
    requires
        clean(x),
        no_slash_cr(x),
        good_body(b),
    ensures
        clean((x + b).push(';')),
        no_slash_cr((x + b).push(';')),
        pieces((x + b).push(';')) == pieces(x).push(b),
{
    lemma_clean_body(x, b);
    assert(no_slash_cr(b));
    lemma_nsc_add(x, b);
    lemma_nsc_add(x + b, seq![';']);
    assert((x + b) + seq![';'] =~= (x + b).push(';'));
}

/// A newline after a clean text that holds no `/` or carriage return.
pub proof fn lemma_push_newline(x: Seq<char>)
    requires
        clean(x),
        no_slash_cr(x),
    ensures
        clean(x.push('\n')),
        no_slash_cr(x.push('\n')),
        pieces(x.push('\n')) == pieces(x),
{
    lemma_clean_newline(x);
    lemma_nsc_add(x, seq!['\n']);
    assert(x + seq!['\n'] =~= x.push('\n'));
}

/// A line: a statement text and a `;`.
pub open spec fn good_line(l: Seq<char>) -> bool {
    l.len() > 0 && l.last() == ';' && good_body(l.drop_last())
}

/// The statement texts of lines.
pub open spec fn line_bodies(lines: Seq<Seq<char>>) -> Seq<Seq<char>> {
    lines.map_values(|l: Seq<char>| l.drop_last())
}

/// Lines, each after a newline, add their statement texts.
pub proof fn lemma_lines_pieces(x: Seq<char>, lines: Seq<Seq<char>>)
    requires
        clean(x),
        no_slash_cr(x),
        forall|i: int| 0 <= i < lines.len() ==> good_line(#[trigger] lines[i]),
    ensures
        clean(x + line_block(lines)),
        no_slash_cr(x + line_block(lines)),
        pieces(x + line_block(lines)) == pieces(x) + line_bodies(lines),
    decreases lines.len(),
{
    if lines.len() == 0 {
        assert(x + line_block(lines) =~= x);
        assert(pieces(x) + line_bodies(lines) =~= pieces(x));
    } else {
        let p = lines.drop_last();
        assert forall|i: int| 0 <= i < p.len() implies good_line(#[trigger] p[i]) by {
            assert(p[i] == lines[i]);
        }
        lemma_lines_pieces(x, p);
        let y = x + line_block(p);
        lemma_push_newline(y);
        let l = lines.last();
        assert(good_line(lines[lines.len() - 1]));
        let b = l.drop_last();
        lemma_push_body(y.push('\n'), b);
        reveal_strlit("\n");
        assert(l =~= b.push(';'));
        assert(x + line_block(lines) =~= (y.push('\n') + b).push(';'));
        assert(line_bodies(lines) =~= line_bodies(p).push(b));
        assert(pieces(x) + line_bodies(lines) =~= (pieces(x) + line_bodies(p)).push(b));
    }
}

/// The statement texts of the header and register declarations.
pub open spec fn register_texts(n: nat, m: nat) -> Seq<Seq<char>> {
    seq!["OPENQASM 2.0"@, "include \"qelib1.inc\""@, reg_decl("qreg"@, 'q', n)]
        + if m > 0 { seq![reg_decl("creg"@, 'c', m)] } else { Seq::empty() }
}

proof fn lemma_registers_text(n: usize, m: usize)
    ensures
        qasm_registers(n as nat, m as nat) == "OPENQASM 2.0"@ + seq![';', '\n'] + "include \"qelib1.inc\""@ + seq![';', '\n', '\n']
            + reg_decl("qreg"@, 'q', n as nat) + seq![';'] + if m > 0 {
                seq!['\n'] + reg_decl("creg"@, 'c', m as nat) + seq![';']
            } else {
                Seq::empty()
            },
{
    reveal_strlit("OPENQASM 2.0;\ninclude \"qelib1.inc\";\n\nqreg q[");
    reveal_strlit("OPENQASM 2.0");
    reveal_strlit("include \"qelib1.inc\"");
    reveal_strlit("qreg");
    reveal_strlit("];");
    reveal_strlit("\ncreg c[");
    reveal_strlit("creg");
    let lit = "OPENQASM 2.0;\ninclude \"qelib1.inc\";\n\nqreg q["@;
    let pre = "OPENQASM 2.0"@ + seq![';', '\n'] + "include \"qelib1.inc\""@ + seq![';', '\n', '\n'] + "qreg"@ + seq![' ', 'q', '['];
    assert(lit =~= pre);
    let d = decimal(n as nat);
    assert(lit + d + "];"@ =~= "OPENQASM 2.0"@ + seq![';', '\n'] + "include \"qelib1.inc\""@ + seq![';', '\n', '\n']
        + reg_decl("qreg"@, 'q', n as nat) + seq![';']);
    if m > 0 {
        assert("\ncreg c["@ + decimal(m as nat) + "];"@ =~= seq!['\n'] + reg_decl("creg"@, 'c', m as nat) + seq![';']);
    }
}

/// The header and register declarations are clean, hold no `/` or
/// carriage return, and give their statement texts.
#[verifier::rlimit(50)]
pub proof fn lemma_registers_pieces(n: usize, m: usize)
    ensures
        clean(qasm_registers(n as nat, m as nat)),
        no_slash_cr(qasm_registers(n as nat, m as nat)),
        pieces(qasm_registers(n as nat, m as nat)) == register_texts(n as nat, m as nat),
        qasm_registers(n as nat, m as nat).len() > 0,
        qasm_registers(n as nat, m as nat).last() == ';',
{
    let h = "OPENQASM 2.0"@;
    let inc = "include \"qelib1.inc\""@;
    let q = reg_decl("qreg"@, 'q', n as nat);
    let c = reg_decl("creg"@, 'c', m as nat);
    assert(good_body(h) && good_body(inc) && good_body(q) && good_body(c)) by {
        lemma_header_stmt();
        lemma_include_stmt();
        lemma_reg_decl_stmts(n, m);
    }
    lemma_clean_empty();
    let e = Seq::<char>::empty();
    assert(no_slash_cr(e));
    lemma_push_body(e, h);
    let x1 = (e + h).push(';');
    lemma_push_newline(x1);
    lemma_push_body(x1.push('\n'), inc);
    let x2 = (x1.push('\n') + inc).push(';');
    lemma_push_newline(x2);
    lemma_push_newline(x2.push('\n'));
    lemma_push_body(x2.push('\n').push('\n'), q);
    let x3 = (x2.push('\n').push('\n') + q).push(';');
    lemma_registers_text(n, m);
    let regs = qasm_registers(n as nat, m as nat);
    assert(x3 =~= h + seq![';', '\n'] + inc + seq![';', '\n', '\n'] + q + seq![';']);
    if m > 0 {
        lemma_push_newline(x3);
        lemma_push_body(x3.push('\n'), c);
        let x4 = (x3.push('\n') + c).push(';');
        assert(x4 =~= h + seq![';', '\n'] + inc + seq![';', '\n', '\n'] + q + seq![';'] + (seq!['\n'] + c + seq![';']));
        assert(regs =~= x4);
        assert(register_texts(n as nat, m as nat) =~= seq![h, inc, q, c]);
    } else {
        assert(regs =~= x3);
        assert(register_texts(n as nat, m as nat) =~= seq![h, inc, q]);
    }
}

} // verus!
