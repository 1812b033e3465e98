//! What the delimiter pass keeps of the tokens it rewrites.
use vstd::prelude::*;
use crate::lexer::token::{TokenType, TokenView};
use crate::parser::grammar::{DelimView, apply_emphasis, delim_loop, delim_step, lemma_delim_step, match_delims,
    remove_delim, resolve_delimiters, set_length, shift_down, shift_up, truncate_lexeme, with_kind, emphasis_lexeme};

verus! {

/// An opening or closing emphasis token.
pub open spec fn is_emphasis(k: TokenType) -> bool {
    k == TokenType::OpenEmphasis || k == TokenType::CloseEmphasis || k == TokenType::OpenStrong
        || k == TokenType::CloseStrong
}

pub open spec fn is_closing(k: TokenType) -> bool {
    k == TokenType::CloseEmphasis || k == TokenType::CloseStrong
}

/// A token that the delimiter pass does not handle: neither a delimiter run nor an emphasis
/// token.
pub open spec fn is_other(tv: TokenView) -> bool {
    !(tv.token_type is Delimiter) && !is_emphasis(tv.token_type)
}

/// The tokens of `t` that the delimiter pass does not handle, in order.
pub open spec fn other_tokens(t: Seq<TokenView>) -> Seq<TokenView>
    decreases t.len(),
{
    if t.len() == 0 {
        Seq::empty()
    } else if is_other(t.last()) {
        other_tokens(t.drop_last()).push(t.last())
    } else {
        other_tokens(t.drop_last())
    }
}

proof fn lemma_other_tokens_add(a: Seq<TokenView>, b: Seq<TokenView>)
    ensures
        other_tokens(a + b) == other_tokens(a) + other_tokens(b),
    decreases b.len(),
{
    if b.len() == 0 {
        assert(a + b =~= a);
        assert(other_tokens(a) + other_tokens(b) =~= other_tokens(a));
    } else {
        lemma_other_tokens_add(a, b.drop_last());
        assert((a + b).drop_last() =~= a + b.drop_last());
        assert((a + b).last() == b.last());
        if is_other(b.last()) {
            assert(other_tokens(a) + other_tokens(b.drop_last()).push(b.last()) =~= (other_tokens(a)
                + other_tokens(b.drop_last())).push(b.last()));
        }
    }
}

proof fn lemma_other_tokens_one(x: TokenView)
    requires
        !is_other(x),
    ensures
        other_tokens(seq![x]) == Seq::<TokenView>::empty(),
{
    assert(seq![x].drop_last() =~= Seq::<TokenView>::empty());
    assert(seq![x].last() == x);
    assert(other_tokens(Seq::<TokenView>::empty()) == Seq::<TokenView>::empty());
}

/// How many tokens of kind `k` are in `t`.
pub open spec fn count_kind(t: Seq<TokenView>, k: TokenType) -> nat
    decreases t.len(),
{
    if t.len() == 0 {
        0
    } else {
        count_kind(t.drop_last(), k) + if t.last().token_type == k { 1nat } else { 0nat }
    }
}

proof fn lemma_count_kind_add(a: Seq<TokenView>, b: Seq<TokenView>, k: TokenType)
    ensures
        count_kind(a + b, k) == count_kind(a, k) + count_kind(b, k),
    decreases b.len(),
{
    if b.len() == 0 {
        assert(a + b =~= a);
    } else {
        lemma_count_kind_add(a, b.drop_last(), k);
        assert((a + b).drop_last() =~= a + b.drop_last());
        assert((a + b).last() == b.last());
    }
}

proof fn lemma_count_kind_one(x: TokenView, k: TokenType)
    ensures
        count_kind(seq![x], k) == if x.token_type == k { 1nat } else { 0nat },
{
    assert(seq![x].drop_last() =~= Seq::<TokenView>::empty());
    assert(seq![x].last() == x);
    assert(count_kind(Seq::<TokenView>::empty(), k) == 0);
}

proof fn lemma_count_kind_none(t: Seq<TokenView>, k: TokenType)
    requires
        forall|m: int| 0 <= m < t.len() ==> (#[trigger] t[m]).token_type != k,
    ensures
        count_kind(t, k) == 0,
    decreases t.len(),
{
    if t.len() > 0 {
        assert(t.last() == t[t.len() - 1]);
        assert forall|m: int| 0 <= m < t.drop_last().len() implies (#[trigger] t.drop_last()[m]).token_type != k by {
            assert(t.drop_last()[m] == t[m]);
        }
        lemma_count_kind_none(t.drop_last(), k);
    }
}

/// As many opening as closing tokens of each kind of emphasis.
pub open spec fn emphasis_balanced(t: Seq<TokenView>) -> bool {
    &&& count_kind(t, TokenType::OpenEmphasis) == count_kind(t, TokenType::CloseEmphasis)
    &&& count_kind(t, TokenType::OpenStrong) == count_kind(t, TokenType::CloseStrong)
}

/// In every prefix of `t`, no more tokens of kind `c` than of kind `o`.
pub open spec fn leads(t: Seq<TokenView>, o: TokenType, c: TokenType) -> bool {
    forall|n: int| 0 <= n <= t.len() ==> count_kind(#[trigger] t.take(n), c) <= count_kind(t.take(n), o)
}

/// Every prefix holds at least as many opening as closing tokens of each kind of emphasis.
pub open spec fn emphasis_nested(t: Seq<TokenView>) -> bool {
    leads(t, TokenType::OpenEmphasis, TokenType::CloseEmphasis) && leads(t, TokenType::OpenStrong,
        TokenType::CloseStrong)
}

proof fn lemma_count_kind_insert(u: Seq<TokenView>, p: int, x: TokenView, k: TokenType)
    requires
        0 <= p <= u.len(),
    ensures
        count_kind(u.insert(p, x), k) == count_kind(u, k) + if x.token_type == k { 1int } else { 0int },
{
    assert(u.insert(p, x) =~= u.take(p) + seq![x] + u.skip(p));
    assert(u =~= u.take(p) + u.skip(p));
    lemma_count_kind_add(u.take(p) + seq![x], u.skip(p), k);
    lemma_count_kind_add(u.take(p), seq![x], k);
    lemma_count_kind_add(u.take(p), u.skip(p), k);
    lemma_count_kind_one(x, k);
}

proof fn lemma_leads_insert(t: Seq<TokenView>, p: int, x: TokenView, o: TokenType, c: TokenType)
    requires
        0 <= p <= t.len(),
        leads(t, o, c),
        x.token_type != c,
    ensures
        leads(t.insert(p, x), o, c),
{
    let w = t.insert(p, x);
    assert forall|n: int| 0 <= n <= w.len() implies count_kind(#[trigger] w.take(n), c) <= count_kind(w.take(n), o) by {
        if n <= p {
            assert(w.take(n) =~= t.take(n));
        } else {
            assert(w.take(n) =~= t.take(n - 1).insert(p, x));
            lemma_count_kind_insert(t.take(n - 1), p, x, c);
            lemma_count_kind_insert(t.take(n - 1), p, x, o);
            assert(count_kind(t.take(n - 1), c) <= count_kind(t.take(n - 1), o));
        }
    }
}

proof fn lemma_leads_pair(t: Seq<TokenView>, p: int, q: int, ot: TokenView, ct: TokenView, o: TokenType, c: TokenType)
    requires
        0 <= p < q <= t.len() + 1,
        leads(t, o, c),
        ot.token_type == o,
        ct.token_type == c,
        o != c,
    ensures
        leads(t.insert(p, ot).insert(q, ct), o, c),
{
    let t1 = t.insert(p, ot);
    let w = t1.insert(q, ct);
    lemma_leads_insert(t, p, ot, o, c);
    assert forall|n: int| 0 <= n <= w.len() implies count_kind(#[trigger] w.take(n), c) <= count_kind(w.take(n), o) by {
        if n <= q {
            assert(w.take(n) =~= t1.take(n));
        } else {
            let m = n - 1;
            assert(w.take(n) =~= t1.take(m).insert(q, ct));
            lemma_count_kind_insert(t1.take(m), q, ct, c);
            lemma_count_kind_insert(t1.take(m), q, ct, o);
            assert(t1.take(m) =~= t.take(m - 1).insert(p, ot));
            lemma_count_kind_insert(t.take(m - 1), p, ot, c);
            lemma_count_kind_insert(t.take(m - 1), p, ot, o);
            assert(count_kind(t.take(m - 1), c) <= count_kind(t.take(m - 1), o));
        }
    }
}

proof fn lemma_leads_remove(t: Seq<TokenView>, p: int, o: TokenType, c: TokenType)
    requires
        0 <= p < t.len(),
        leads(t, o, c),
        t[p].token_type != o,
        t[p].token_type != c,
    ensures
        leads(t.remove(p), o, c),
{
    let w = t.remove(p);
    assert forall|n: int| 0 <= n <= w.len() implies count_kind(#[trigger] w.take(n), c) <= count_kind(w.take(n), o) by {
        if n <= p {
            assert(w.take(n) =~= t.take(n));
        } else {
            assert(t.take(n + 1) =~= w.take(n).insert(p, t[p]));
            lemma_count_kind_insert(w.take(n), p, t[p], c);
            lemma_count_kind_insert(w.take(n), p, t[p], o);
            assert(count_kind(t.take(n + 1), c) <= count_kind(t.take(n + 1), o));
        }
    }
}

proof fn lemma_leads_update(t: Seq<TokenView>, p: int, x: TokenView, o: TokenType, c: TokenType)
    requires
        0 <= p < t.len(),
        leads(t, o, c),
        t[p].token_type != o,
        t[p].token_type != c,
        x.token_type != c,
    ensures
        leads(t.update(p, x), o, c),
{
    lemma_leads_remove(t, p, o, c);
    lemma_leads_insert(t.remove(p), p, x, o, c);
    assert(t.remove(p).insert(p, x) =~= t.update(p, x));
}

/// The tokens after a match, built step by step: the opening token after the opener, the
/// closing token before the closer, the closer truncated, and spent runs removed.
pub open spec fn matched_by_steps(t: Seq<TokenView>, op: int, i: int, ot: TokenView, ct: TokenView, cl: TokenView,
    keep_o: bool, keep_j: bool) -> Seq<TokenView> {
    let t3 = t.insert(op + 1, ot).insert(i + 1, ct).update(i + 2, cl);
    let t4 = if keep_j { t3 } else { t3.remove(i + 2) };
    if keep_o { t4 } else { t4.remove(op) }
}

proof fn lemma_leads_steps(t: Seq<TokenView>, op: int, i: int, ot: TokenView, ct: TokenView, cl: TokenView,
    keep_o: bool, keep_j: bool, o: TokenType, c: TokenType)
    requires
        0 <= op < i < t.len(),
        leads(t, o, c),
        o != c,
        is_emphasis(o),
        is_emphasis(c),
        t[op].token_type is Delimiter,
        t[i].token_type is Delimiter,
        cl.token_type is Delimiter,
        (ot.token_type == o && ct.token_type == c) || (ot.token_type != o && ot.token_type != c
            && ct.token_type != o && ct.token_type != c),
    ensures
        leads(matched_by_steps(t, op, i, ot, ct, cl, keep_o, keep_j), o, c),
{
    let t1 = t.insert(op + 1, ot);
    let t2 = t1.insert(i + 1, ct);
    if ot.token_type == o {
        lemma_leads_pair(t, op + 1, i + 1, ot, ct, o, c);
    } else {
        lemma_leads_insert(t, op + 1, ot, o, c);
        lemma_leads_insert(t1, i + 1, ct, o, c);
    }
    assert(t2[i + 2] == t[i]);
    lemma_leads_update(t2, i + 2, cl, o, c);
    let t3 = t2.update(i + 2, cl);
    if !keep_j {
        lemma_leads_remove(t3, i + 2, o, c);
    }
    let t4 = if keep_j { t3 } else { t3.remove(i + 2) };
    assert(t4[op] == t[op]);
    if !keep_o {
        lemma_leads_remove(t4, op, o, c);
    }
}

proof fn lemma_matched_by_steps(t: Seq<TokenView>, op: int, i: int, ot: TokenView, ct: TokenView, cl: TokenView,
    keep_o: bool, keep_j: bool)
    requires
        0 <= op < i < t.len(),
    ensures
        matched_by_steps(t, op, i, ot, ct, cl, keep_o, keep_j) == matched_tokens(t, op, i, ot, ct, cl, keep_o, keep_j),
{
    let a = t.subrange(0, op);
    let mid = t.subrange(op + 1, i);
    let rest = t.subrange(i + 1, t.len() as int);
    let t3 = t.insert(op + 1, ot).insert(i + 1, ct).update(i + 2, cl);
    assert(t3 =~= a + seq![t[op]] + seq![ot] + mid + seq![ct] + seq![cl] + rest);
    let t4 = if keep_j { t3 } else { t3.remove(i + 2) };
    assert(t4 =~= a + seq![t[op]] + seq![ot] + mid + seq![ct] + opt(keep_j, cl) + rest);
    assert(matched_by_steps(t, op, i, ot, ct, cl, keep_o, keep_j) =~= matched_tokens(t, op, i, ot, ct, cl, keep_o,
        keep_j));
}

/// `x` is `y` with its lexeme cut to a prefix: same kind, line and position.
pub open spec fn shrunk(x: TokenView, y: TokenView) -> bool {
    &&& x.token_type == y.token_type
    &&& x.line == y.line
    &&& x.pos == y.pos
    &&& x.lexeme.len() <= y.lexeme.len()
    &&& x.lexeme == y.lexeme.take(x.lexeme.len() as int)
}

/// `f` places each token of `a`, in order, on a distinct token of `b` that it is a shrunk copy of.
pub open spec fn embeds_by(a: Seq<TokenView>, b: Seq<TokenView>, f: Seq<int>) -> bool {
    &&& f.len() == a.len()
    &&& forall|k: int| 0 <= k < a.len() ==> 0 <= #[trigger] f[k] < b.len() && shrunk(a[k], b[f[k]])
    &&& forall|k1: int, k2: int| 0 <= k1 < k2 < a.len() ==> #[trigger] f[k1] < #[trigger] f[k2]
}

/// The tokens of `a` are shrunk copies of tokens of `b`, in the same order.
pub open spec fn embeds(a: Seq<TokenView>, b: Seq<TokenView>) -> bool {
    exists|f: Seq<int>| embeds_by(a, b, f)
}

/// The delimiter runs of `t`, in order.
pub open spec fn delimiter_runs(t: Seq<TokenView>) -> Seq<TokenView>
    decreases t.len(),
{
    if t.len() == 0 {
        Seq::empty()
    } else if t.last().token_type is Delimiter {
        delimiter_runs(t.drop_last()).push(t.last())
    } else {
        delimiter_runs(t.drop_last())
    }
}

proof fn lemma_delimiter_runs_add(a: Seq<TokenView>, b: Seq<TokenView>)
    ensures
        delimiter_runs(a + b) == delimiter_runs(a) + delimiter_runs(b),
    decreases b.len(),
{
    if b.len() == 0 {
        assert(a + b =~= a);
        assert(delimiter_runs(a) + delimiter_runs(b) =~= delimiter_runs(a));
    } else {
        lemma_delimiter_runs_add(a, b.drop_last());
        assert((a + b).drop_last() =~= a + b.drop_last());
        assert((a + b).last() == b.last());
        if b.last().token_type is Delimiter {
            assert(delimiter_runs(a) + delimiter_runs(b.drop_last()).push(b.last()) =~= (delimiter_runs(a)
                + delimiter_runs(b.drop_last())).push(b.last()));
        }
    }
}

proof fn lemma_delimiter_runs_one(x: TokenView)
    ensures
        delimiter_runs(seq![x]) == if x.token_type is Delimiter { seq![x] } else { Seq::<TokenView>::empty() },
{
    assert(seq![x].drop_last() =~= Seq::<TokenView>::empty());
    assert(seq![x].last() == x);
    assert(delimiter_runs(Seq::<TokenView>::empty()) == Seq::<TokenView>::empty());
    assert(Seq::<TokenView>::empty().push(x) =~= seq![x]);
}

proof fn lemma_embeds_refl(a: Seq<TokenView>)
    ensures
        embeds(a, a),
{
    let f = Seq::new(a.len(), |k: int| k);
    assert forall|k: int| 0 <= k < a.len() implies shrunk(a[k], a[f[k]]) by {
        assert(a[k].lexeme.take(a[k].lexeme.len() as int) =~= a[k].lexeme);
    }
    assert(embeds_by(a, a, f));
}

proof fn lemma_embeds_trans(a: Seq<TokenView>, b: Seq<TokenView>, c: Seq<TokenView>)
    requires
        embeds(a, b),
        embeds(b, c),
    ensures
        embeds(a, c),
{
    let f = choose|f: Seq<int>| embeds_by(a, b, f);
    let g = choose|g: Seq<int>| embeds_by(b, c, g);
    let h = Seq::new(a.len(), |k: int| g[f[k]]);
    assert forall|k: int| 0 <= k < a.len() implies 0 <= #[trigger] h[k] < c.len() && shrunk(a[k], c[h[k]]) by {
        let x = a[k];
        let y = b[f[k]];
        let z = c[g[f[k]]];
        assert(shrunk(x, y));
        assert(shrunk(y, z));
        assert(y.lexeme.take(x.lexeme.len() as int) =~= z.lexeme.take(x.lexeme.len() as int));
    }
    assert forall|k1: int, k2: int| 0 <= k1 < k2 < a.len() implies #[trigger] h[k1] < #[trigger] h[k2] by {
        assert(f[k1] < f[k2]);
    }
    assert(embeds_by(a, c, h));
}

/// Leaving out the first of two tokens, and shrinking or leaving out the second, keeps an
/// embedding into the whole.
proof fn lemma_embeds_parts(x: Seq<TokenView>, y: TokenView, ys: Seq<TokenView>, z: TokenView, zc: TokenView,
    zs: Seq<TokenView>, keep_y: bool, keep_z: bool)
    requires
        shrunk(zc, z),
    ensures
        embeds(x + opt(keep_y, y) + ys + opt(keep_z, zc) + zs, x + seq![y] + ys + seq![z] + zs),
{
    let a = x + opt(keep_y, y) + ys + opt(keep_z, zc) + zs;
    let b = x + seq![y] + ys + seq![z] + zs;
    let ky = b2i(keep_y);
    let kz = b2i(keep_z);
    let nx = x.len() as int;
    let ny = ys.len() as int;
    assert(opt(keep_y, y).len() == ky);
    assert(opt(keep_z, zc).len() == kz);
    // index in `b` of the token at `k` in `a`
    let f = Seq::new(a.len(), |k: int|
        if k < nx {
            k
        } else if k < nx + ky {
            nx
        } else if k < nx + ky + ny {
            k - nx - ky + nx + 1
        } else if k < nx + ky + ny + kz {
            nx + 1 + ny
        } else {
            k - (nx + ky + ny + kz) + nx + 2 + ny
        });
    assert forall|k: int| 0 <= k < a.len() implies 0 <= #[trigger] f[k] < b.len() && shrunk(a[k], b[f[k]]) by {
        if k < nx {
            assert(a[k] == x[k] && b[k] == x[k]);
        } else if k < nx + ky {
            assert(a[k] == y && b[nx] == y);
        } else if k < nx + ky + ny {
            assert(a[k] == ys[k - nx - ky]);
            assert(b[k - nx - ky + nx + 1] == ys[k - nx - ky]);
        } else if k < nx + ky + ny + kz {
            assert(a[k] == zc && b[nx + 1 + ny] == z);
        } else {
            assert(a[k] == zs[k - (nx + ky + ny + kz)]);
            assert(b[k - (nx + ky + ny + kz) + nx + 2 + ny] == zs[k - (nx + ky + ny + kz)]);
        }
        if shrunk(a[k], b[f[k]]) {
        } else {
            assert(a[k] == b[f[k]]);
            assert(a[k].lexeme.take(a[k].lexeme.len() as int) =~= a[k].lexeme);
        }
    }
    assert(embeds_by(a, b, f));
}

proof fn lemma_parts_delims(t: Seq<TokenView>, op: int, i: int, ot: TokenView, ct: TokenView, cl: TokenView,
    keep_o: bool, keep_j: bool)
    requires
        0 <= op < i < t.len(),
        t[op].token_type is Delimiter,
        t[i].token_type is Delimiter,
        shrunk(cl, t[i]),
        is_emphasis(ot.token_type),
        is_emphasis(ct.token_type),
    ensures
        embeds(delimiter_runs(matched_tokens(t, op, i, ot, ct, cl, keep_o, keep_j)), delimiter_runs(t)),
{
    let a = t.subrange(0, op);
    let b = opt(keep_o, t[op]);
    let mid = t.subrange(op + 1, i);
    let c = opt(keep_j, cl);
    let rest = t.subrange(i + 1, t.len() as int);
    assert(matched_tokens(t, op, i, ot, ct, cl, keep_o, keep_j) == a + b + seq![ot] + mid + seq![ct] + c + rest);
    assert(t =~= a + seq![t[op]] + mid + seq![t[i]] + rest);
    lemma_delimiter_runs_add(a + seq![t[op]] + mid + seq![t[i]], rest);
    lemma_delimiter_runs_add(a + seq![t[op]] + mid, seq![t[i]]);
    lemma_delimiter_runs_add(a + seq![t[op]], mid);
    lemma_delimiter_runs_add(a, seq![t[op]]);
    lemma_delimiter_runs_add(a + b + seq![ot] + mid + seq![ct] + c, rest);
    lemma_delimiter_runs_add(a + b + seq![ot] + mid + seq![ct], c);
    lemma_delimiter_runs_add(a + b + seq![ot] + mid, seq![ct]);
    lemma_delimiter_runs_add(a + b + seq![ot], mid);
    lemma_delimiter_runs_add(a + b, seq![ot]);
    lemma_delimiter_runs_add(a, b);
    lemma_delimiter_runs_one(t[op]);
    lemma_delimiter_runs_one(t[i]);
    lemma_delimiter_runs_one(ot);
    lemma_delimiter_runs_one(ct);
    lemma_delimiter_runs_one(cl);
    if !keep_o {
        assert(b =~= Seq::<TokenView>::empty());
        assert(delimiter_runs(b) == Seq::<TokenView>::empty());
    }
    if !keep_j {
        assert(c =~= Seq::<TokenView>::empty());
        assert(delimiter_runs(c) == Seq::<TokenView>::empty());
    }
    let da = delimiter_runs(a);
    let dm = delimiter_runs(mid);
    let dr = delimiter_runs(rest);
    assert(delimiter_runs(matched_tokens(t, op, i, ot, ct, cl, keep_o, keep_j)) =~= da + opt(keep_o, t[op]) + dm
        + opt(keep_j, cl) + dr);
    assert(delimiter_runs(t) =~= da + seq![t[op]] + dm + seq![t[i]] + dr);
    lemma_embeds_parts(da, t[op], dm, t[i], cl, dr, keep_o, keep_j);
}

/// The opening and closing emphasis tokens of `t`, by kind, in order.
pub open spec fn brackets(t: Seq<TokenView>) -> Seq<TokenType>
    decreases t.len(),
{
    if t.len() == 0 {
        Seq::empty()
    } else if is_emphasis(t.last().token_type) {
        brackets(t.drop_last()).push(t.last().token_type)
    } else {
        brackets(t.drop_last())
    }
}

proof fn lemma_brackets_add(a: Seq<TokenView>, b: Seq<TokenView>)
    ensures
        brackets(a + b) == brackets(a) + brackets(b),
    decreases b.len(),
{
    if b.len() == 0 {
        assert(a + b =~= a);
        assert(brackets(a) + brackets(b) =~= brackets(a));
    } else {
        lemma_brackets_add(a, b.drop_last());
        assert((a + b).drop_last() =~= a + b.drop_last());
        assert((a + b).last() == b.last());
        if is_emphasis(b.last().token_type) {
            assert(brackets(a) + brackets(b.drop_last()).push(b.last().token_type) =~= (brackets(a)
                + brackets(b.drop_last())).push(b.last().token_type));
        }
    }
}

proof fn lemma_brackets_one(x: TokenView)
    ensures
        brackets(seq![x]) == if is_emphasis(x.token_type) { seq![x.token_type] } else { Seq::<TokenType>::empty() },
{
    assert(seq![x].drop_last() =~= Seq::<TokenView>::empty());
    assert(seq![x].last() == x);
    assert(brackets(Seq::<TokenView>::empty()) == Seq::<TokenType>::empty());
    assert(Seq::<TokenType>::empty().push(x.token_type) =~= seq![x.token_type]);
}

pub open spec fn is_opening(k: TokenType) -> bool {
    k == TokenType::OpenEmphasis || k == TokenType::OpenStrong
}

/// The opening kind that a closing kind closes.
pub open spec fn opener_of(c: TokenType) -> TokenType {
    if c == TokenType::CloseStrong {
        TokenType::OpenStrong
    } else {
        TokenType::OpenEmphasis
    }
}

/// Reads `w` with `st` as the openings not yet closed: each closing token must close the
/// last one, of its own kind. The openings left, or none if a closing token does not fit.
pub open spec fn reduce(st: Seq<TokenType>, w: Seq<TokenType>) -> Option<Seq<TokenType>>
    decreases w.len(),
{
    if w.len() == 0 {
        Some(st)
    } else if is_opening(w[0]) {
        reduce(st.push(w[0]), w.drop_first())
    } else if is_closing(w[0]) && st.len() > 0 && st.last() == opener_of(w[0]) {
        reduce(st.drop_last(), w.drop_first())
    } else {
        None
    }
}

/// Every opening token is closed by a closing token of its kind, and the pairs nest.
pub open spec fn well_nested(w: Seq<TokenType>) -> bool {
    reduce(Seq::empty(), w) == Some(Seq::<TokenType>::empty())
}

proof fn lemma_reduce_compose(st: Seq<TokenType>, u: Seq<TokenType>, v: Seq<TokenType>)
    ensures
        reduce(st, u + v) == match reduce(st, u) {
            None => None,
            Some(s2) => reduce(s2, v),
        },
    decreases u.len(),
{
    if u.len() == 0 {
        assert(u + v =~= v);
    } else {
        assert((u + v)[0] == u[0]);
        assert((u + v).drop_first() =~= u.drop_first() + v);
        if is_opening(u[0]) {
            lemma_reduce_compose(st.push(u[0]), u.drop_first(), v);
        } else if is_closing(u[0]) && st.len() > 0 && st.last() == opener_of(u[0]) {
            lemma_reduce_compose(st.drop_last(), u.drop_first(), v);
        }
    }
}

proof fn lemma_reduce_shift(pre: Seq<TokenType>, st: Seq<TokenType>, w: Seq<TokenType>)
    requires
        reduce(st, w) is Some,
    ensures
        reduce(pre + st, w) == Some(pre + reduce(st, w)->0),
    decreases w.len(),
{
    if w.len() > 0 {
        if is_opening(w[0]) {
            assert((pre + st).push(w[0]) =~= pre + st.push(w[0]));
            lemma_reduce_shift(pre, st.push(w[0]), w.drop_first());
        } else {
            assert((pre + st).last() == st.last());
            assert((pre + st).drop_last() =~= pre + st.drop_last());
            lemma_reduce_shift(pre, st.drop_last(), w.drop_first());
        }
    } else {
        assert(reduce(pre + st, w) == Some(pre + st));
    }
}

proof fn lemma_nested_wrap(u: Seq<TokenType>, m: Seq<TokenType>, o: TokenType, c: TokenType)
    requires
        well_nested(u),
        well_nested(m),
        is_opening(o),
        is_closing(c),
        opener_of(c) == o,
    ensures
        well_nested(u + seq![o] + m + seq![c]),
{
    reveal_with_fuel(reduce, 2);
    assert(seq![o][0] == o);
    assert(seq![c][0] == c);
    lemma_reduce_compose(Seq::empty(), u + seq![o] + m, seq![c]);
    lemma_reduce_compose(Seq::empty(), u + seq![o], m);
    lemma_reduce_compose(Seq::empty(), u, seq![o]);
    assert(seq![o].drop_first() =~= Seq::<TokenType>::empty());
    assert(Seq::<TokenType>::empty().push(o) =~= seq![o]);
    assert(reduce(Seq::empty(), seq![o]) == Some(seq![o]));
    lemma_reduce_shift(seq![o], Seq::empty(), m);
    assert(seq![o] + Seq::<TokenType>::empty() =~= seq![o]);
    assert(seq![c].drop_first() =~= Seq::<TokenType>::empty());
    assert(seq![o].drop_last() =~= Seq::<TokenType>::empty());
    assert(reduce(seq![o], seq![c]) == Some(Seq::<TokenType>::empty()));
}

proof fn lemma_nested_suffix(u: Seq<TokenType>, v: Seq<TokenType>)
    requires
        well_nested(u),
        well_nested(u + v),
    ensures
        well_nested(v),
{
    lemma_reduce_compose(Seq::empty(), u, v);
}

proof fn lemma_brackets_none(t: Seq<TokenView>)
    requires
        t.len() == 0,
    ensures
        well_nested(brackets(t)),
{
    assert(brackets(t) == Seq::<TokenType>::empty());
}

proof fn lemma_take_next(t: Seq<TokenView>, i: int)
    requires
        0 <= i < t.len(),
        !is_emphasis(t[i].token_type),
    ensures
        brackets(t.take(i + 1)) == brackets(t.take(i)),
{
    assert(t.take(i + 1) =~= t.take(i) + seq![t[i]]);
    lemma_brackets_add(t.take(i), seq![t[i]]);
    lemma_brackets_one(t[i]);
    assert(brackets(t.take(i)) + Seq::<TokenType>::empty() =~= brackets(t.take(i)));
}

proof fn lemma_parts_brackets(t: Seq<TokenView>, op: int, i: int, ot: TokenView, ct: TokenView, cl: TokenView,
    keep_o: bool, keep_j: bool)
    requires
        0 <= op < i < t.len(),
        t[op].token_type is Delimiter,
        t[i].token_type is Delimiter,
        cl.token_type is Delimiter,
        (ot.token_type == TokenType::OpenEmphasis && ct.token_type == TokenType::CloseEmphasis) || (
        ot.token_type == TokenType::OpenStrong && ct.token_type == TokenType::CloseStrong),
        well_nested(brackets(t.take(op))),
        well_nested(brackets(t.take(i))),
    ensures
        ({
            let tt = matched_tokens(t, op, i, ot, ct, cl, keep_o, keep_j);
            let ko = b2i(keep_o);
            &&& well_nested(brackets(tt.take(i + ko + 1)))
            &&& well_nested(brackets(tt.take(i + ko + 1 + b2i(keep_j))))
        }),
{
    let tt = matched_tokens(t, op, i, ot, ct, cl, keep_o, keep_j);
    let ko = b2i(keep_o);
    let kj = b2i(keep_j);
    let a = t.subrange(0, op);
    let b = opt(keep_o, t[op]);
    let mid = t.subrange(op + 1, i);
    let c = opt(keep_j, cl);
    let rest = t.subrange(i + 1, t.len() as int);
    assert(tt == a + b + seq![ot] + mid + seq![ct] + c + rest);
    assert(b.len() == ko);
    assert(c.len() == kj);
    assert(tt.take(i + ko + 1) =~= a + b + seq![ot] + mid + seq![ct]);
    assert(tt.take(i + ko + 1 + kj) =~= a + b + seq![ot] + mid + seq![ct] + c);
    assert(t.take(op) =~= a);
    assert(t.take(i) =~= a + seq![t[op]] + mid);
    lemma_brackets_add(a + seq![t[op]], mid);
    lemma_brackets_add(a, seq![t[op]]);
    lemma_brackets_one(t[op]);
    assert(brackets(a) + Seq::<TokenType>::empty() =~= brackets(a));
    lemma_nested_suffix(brackets(a), brackets(mid));
    lemma_brackets_add(a + b + seq![ot] + mid + seq![ct], c);
    lemma_brackets_add(a + b + seq![ot] + mid, seq![ct]);
    lemma_brackets_add(a + b + seq![ot], mid);
    lemma_brackets_add(a + b, seq![ot]);
    lemma_brackets_add(a, b);
    lemma_brackets_one(ot);
    lemma_brackets_one(ct);
    lemma_brackets_one(cl);
    if !keep_o {
        assert(b =~= Seq::<TokenView>::empty());
        assert(brackets(b) == Seq::<TokenType>::empty());
    }
    if !keep_j {
        assert(c =~= Seq::<TokenView>::empty());
        assert(brackets(c) == Seq::<TokenType>::empty());
    }
    let w = brackets(a) + seq![ot.token_type] + brackets(mid) + seq![ct.token_type];
    lemma_nested_wrap(brackets(a), brackets(mid), ot.token_type, ct.token_type);
    assert(brackets(tt.take(i + ko + 1)) =~= w);
    assert(brackets(tt.take(i + ko + 1 + kj)) =~= w);
}

/// The state of the pass at `i`: the stack entries point, in increasing order, at delimiter
/// runs before `i`, none of them directly followed by a closing token; no emphasis token comes
/// at or after `i`; the other tokens are those of `t0`; and opening and closing tokens match
/// in number.
#[verifier::opaque]
pub open spec fn pass_state(t0: Seq<TokenView>, t: Seq<TokenView>, s: Seq<DelimView>, i: int) -> bool {
    &&& 0 <= i
    &&& forall|k: int| 0 <= k < s.len() ==> 0 <= (#[trigger] s[k]).position < i && s[k].position < t.len()
        && t[s[k].position].token_type is Delimiter
    &&& forall|k1: int, k2: int| 0 <= k1 < k2 < s.len() ==> (#[trigger] s[k1]).position < (#[trigger] s[k2]).position
    &&& forall|k: int| 0 <= k < s.len() && (#[trigger] s[k]).position + 1 < t.len() ==> !is_closing(
        t[s[k].position + 1].token_type)
    &&& forall|m: int| i <= m < t.len() ==> !is_emphasis((#[trigger] t[m]).token_type)
    &&& other_tokens(t) == other_tokens(t0)
    &&& emphasis_balanced(t)
    &&& emphasis_nested(t)
    &&& embeds(delimiter_runs(t), delimiter_runs(t0))
    &&& i <= t.len()
    &&& well_nested(brackets(t.take(i)))
    &&& forall|k: int| 0 <= k < s.len() ==> well_nested(brackets(t.take((#[trigger] s[k]).position)))
}

proof fn lemma_pass_state_facts(t0: Seq<TokenView>, t: Seq<TokenView>, s: Seq<DelimView>, i: int)
    requires
        pass_state(t0, t, s, i),
        s.len() > 0,
    ensures
        0 <= s.last().position < i,
        s.last().position < t.len(),
        forall|k: int| 0 <= k < s.len() - 1 ==> (#[trigger] s[k]).position < s.last().position,
        s.last().position + 1 < t.len() ==> !is_closing(t[s.last().position + 1].token_type),
{
    reveal(pass_state);
    assert(s.last() == s[s.len() - 1]);
}

proof fn lemma_push_state(t0: Seq<TokenView>, t: Seq<TokenView>, s: Seq<DelimView>, i: int, d: DelimView)
    requires
        pass_state(t0, t, s, i),
        i < t.len(),
        d.position == i,
        t[i].token_type is Delimiter,
    ensures
        pass_state(t0, t, s.push(d), i + 1),
{
    reveal(pass_state);
    let s1 = s.push(d);
    assert forall|k: int| 0 <= k < s1.len() implies 0 <= (#[trigger] s1[k]).position < i + 1 && s1[k].position
        < t.len() && t[s1[k].position].token_type is Delimiter by {
        if k < s.len() {
            assert(s1[k] == s[k]);
        }
    }
    assert forall|k1: int, k2: int| 0 <= k1 < k2 < s1.len() implies (#[trigger] s1[k1]).position
        < (#[trigger] s1[k2]).position by {
        assert(s1[k1] == s[k1]);
        if k2 < s.len() {
            assert(s1[k2] == s[k2]);
        }
    }
    assert forall|k: int| 0 <= k < s1.len() && (#[trigger] s1[k]).position + 1 < t.len() implies !is_closing(
        t[s1[k].position + 1].token_type) by {
        if k < s.len() {
            assert(s1[k] == s[k]);
        } else {
            assert(!is_emphasis(t[i + 1].token_type));
        }
    }
    lemma_take_next(t, i);
    assert forall|k: int| 0 <= k < s1.len() implies well_nested(brackets(t.take((#[trigger] s1[k]).position))) by {
        if k < s.len() {
            assert(s1[k] == s[k]);
        }
    }
}

/// `x` as a one-element sequence when `keep`, else nothing.
pub open spec fn opt<A>(keep: bool, x: A) -> Seq<A> {
    if keep { seq![x] } else { Seq::empty() }
}

proof fn lemma_other_tokens_opt(keep: bool, x: TokenView)
    requires
        !is_other(x),
    ensures
        other_tokens(opt(keep, x)) == Seq::<TokenView>::empty(),
{
    if keep {
        lemma_other_tokens_one(x);
    }
}

/// The tokens after a match: the opener (if it is not spent), the opening token, the tokens
/// between, the closing token, the closer (if it is not spent), and the rest.
pub open spec fn matched_tokens(t: Seq<TokenView>, op: int, i: int, ot: TokenView, ct: TokenView, cl: TokenView,
    keep_o: bool, keep_j: bool) -> Seq<TokenView> {
    t.subrange(0, op) + opt(keep_o, t[op]) + seq![ot] + t.subrange(op + 1, i) + seq![ct] + opt(keep_j, cl)
        + t.subrange(i + 1, t.len() as int)
}

pub open spec fn matched_stack(s: Seq<DelimView>, dl_o: DelimView, dl_j: DelimView, keep_o: bool, keep_j: bool) -> Seq<DelimView> {
    s.subrange(0, s.len() - 1) + opt(keep_o, dl_o) + opt(keep_j, dl_j)
}

pub open spec fn b2i(b: bool) -> int {
    if b { 1 } else { 0 }
}

proof fn lemma_parts_counts(t: Seq<TokenView>, op: int, i: int, ot: TokenView, ct: TokenView, cl: TokenView,
    keep_o: bool, keep_j: bool, k: TokenType)
    requires
        0 <= op < i < t.len(),
        is_emphasis(k),
        t[op].token_type is Delimiter,
        t[i].token_type is Delimiter,
        cl.token_type is Delimiter,
    ensures
        count_kind(matched_tokens(t, op, i, ot, ct, cl, keep_o, keep_j), k) == count_kind(t, k) + (if ot.token_type
            == k { 1int } else { 0int }) + (if ct.token_type == k { 1int } else { 0int }),
{
    let a = t.subrange(0, op);
    let b = opt(keep_o, t[op]);
    let mid = t.subrange(op + 1, i);
    let c = opt(keep_j, cl);
    let rest = t.subrange(i + 1, t.len() as int);
    assert(matched_tokens(t, op, i, ot, ct, cl, keep_o, keep_j) == a + b + seq![ot] + mid + seq![ct] + c + rest);
    assert(t =~= a + seq![t[op]] + mid + seq![t[i]] + rest);
    lemma_count_kind_add(a + seq![t[op]] + mid + seq![t[i]], rest, k);
    lemma_count_kind_add(a + seq![t[op]] + mid, seq![t[i]], k);
    lemma_count_kind_add(a + seq![t[op]], mid, k);
    lemma_count_kind_add(a, seq![t[op]], k);
    lemma_count_kind_add(a + b + seq![ot] + mid + seq![ct] + c, rest, k);
    lemma_count_kind_add(a + b + seq![ot] + mid + seq![ct], c, k);
    lemma_count_kind_add(a + b + seq![ot] + mid, seq![ct], k);
    lemma_count_kind_add(a + b + seq![ot], mid, k);
    lemma_count_kind_add(a + b, seq![ot], k);
    lemma_count_kind_add(a, b, k);
    lemma_count_kind_one(t[op], k);
    lemma_count_kind_one(t[i], k);
    lemma_count_kind_one(ot, k);
    lemma_count_kind_one(ct, k);
    if keep_j {
        lemma_count_kind_one(cl, k);
    } else {
        assert(c =~= Seq::<TokenView>::empty());
        assert(count_kind(Seq::<TokenView>::empty(), k) == 0);
    }
    if !keep_o {
        assert(b =~= Seq::<TokenView>::empty());
        assert(count_kind(Seq::<TokenView>::empty(), k) == 0);
    }
}

proof fn lemma_parts_nested(t: Seq<TokenView>, op: int, i: int, ot: TokenView, ct: TokenView, cl: TokenView,
    keep_o: bool, keep_j: bool)
    requires
        0 <= op < i < t.len(),
        emphasis_nested(t),
        t[op].token_type is Delimiter,
        t[i].token_type is Delimiter,
        cl.token_type is Delimiter,
        (ot.token_type == TokenType::OpenEmphasis && ct.token_type == TokenType::CloseEmphasis) || (
        ot.token_type == TokenType::OpenStrong && ct.token_type == TokenType::CloseStrong),
    ensures
        emphasis_nested(matched_tokens(t, op, i, ot, ct, cl, keep_o, keep_j)),
{
    lemma_matched_by_steps(t, op, i, ot, ct, cl, keep_o, keep_j);
    lemma_leads_steps(t, op, i, ot, ct, cl, keep_o, keep_j, TokenType::OpenEmphasis, TokenType::CloseEmphasis);
    lemma_leads_steps(t, op, i, ot, ct, cl, keep_o, keep_j, TokenType::OpenStrong, TokenType::CloseStrong);
}

proof fn lemma_leads_none(t: Seq<TokenView>, o: TokenType, c: TokenType)
    requires
        forall|m: int| 0 <= m < t.len() ==> (#[trigger] t[m]).token_type != c,
    ensures
        leads(t, o, c),
{
    assert forall|n: int| 0 <= n <= t.len() implies count_kind(#[trigger] t.take(n), c) <= count_kind(t.take(n), o) by {
        assert forall|m: int| 0 <= m < t.take(n).len() implies (#[trigger] t.take(n)[m]).token_type != c by {
            assert(t.take(n)[m] == t[m]);
        }
        lemma_count_kind_none(t.take(n), c);
    }
}

proof fn lemma_parts_others(t: Seq<TokenView>, op: int, i: int, ot: TokenView, ct: TokenView, cl: TokenView,
    keep_o: bool, keep_j: bool)
    requires
        0 <= op < i < t.len(),
        t[op].token_type is Delimiter,
        t[i].token_type is Delimiter,
        cl.token_type is Delimiter,
        is_emphasis(ot.token_type),
        is_emphasis(ct.token_type),
    ensures
        other_tokens(matched_tokens(t, op, i, ot, ct, cl, keep_o, keep_j)) == other_tokens(t),
{
    let tt = matched_tokens(t, op, i, ot, ct, cl, keep_o, keep_j);
    let a = t.subrange(0, op);
    let b = opt(keep_o, t[op]);
    let mid = t.subrange(op + 1, i);
    let c = opt(keep_j, cl);
    let rest = t.subrange(i + 1, t.len() as int);
    assert(tt == a + b + seq![ot] + mid + seq![ct] + c + rest);
    assert(t =~= a + seq![t[op]] + mid + seq![t[i]] + rest);
    lemma_other_tokens_add(a + seq![t[op]] + mid + seq![t[i]], rest);
    lemma_other_tokens_add(a + seq![t[op]] + mid, seq![t[i]]);
    lemma_other_tokens_add(a + seq![t[op]], mid);
    lemma_other_tokens_add(a, seq![t[op]]);
    lemma_other_tokens_add(a + b + seq![ot] + mid + seq![ct] + c, rest);
    lemma_other_tokens_add(a + b + seq![ot] + mid + seq![ct], c);
    lemma_other_tokens_add(a + b + seq![ot] + mid, seq![ct]);
    lemma_other_tokens_add(a + b + seq![ot], mid);
    lemma_other_tokens_add(a + b, seq![ot]);
    lemma_other_tokens_add(a, b);
    lemma_other_tokens_one(t[op]);
    lemma_other_tokens_one(t[i]);
    lemma_other_tokens_one(ot);
    lemma_other_tokens_one(ct);
    lemma_other_tokens_opt(keep_o, t[op]);
    lemma_other_tokens_opt(keep_j, cl);
    assert(other_tokens(tt) =~= other_tokens(t));
}

#[verifier::rlimit(100)]
#[verifier::spinoff_prover]
proof fn lemma_state_of_parts(t0: Seq<TokenView>, t: Seq<TokenView>, s: Seq<DelimView>, i: int, ot: TokenView,
    ct: TokenView, cl: TokenView, keep_o: bool, keep_j: bool, dl_o: DelimView, dl_j: DelimView)
    requires
        pass_state(t0, t, s, i),
        i < t.len(),
        s.len() > 0,
        t[i].token_type is Delimiter,
        (ot.token_type == TokenType::OpenEmphasis && ct.token_type == TokenType::CloseEmphasis) || (
        ot.token_type == TokenType::OpenStrong && ct.token_type == TokenType::CloseStrong),
        cl.token_type is Delimiter,
        shrunk(cl, t[i]),
        dl_o.position == s.last().position,
        dl_j.position == i + b2i(keep_o) + b2i(keep_j),
    ensures
        pass_state(t0, matched_tokens(t, s.last().position, i, ot, ct, cl, keep_o, keep_j), matched_stack(s, dl_o,
            dl_j, keep_o, keep_j), i + 1 + b2i(keep_o) + b2i(keep_j)),
{
    reveal(pass_state);
    let op = s.last().position;
    let o = s.len() - 1;
    assert(s[o] == s.last());
    assert(0 <= op < i);
    let a = t.subrange(0, op);
    let b = opt(keep_o, t[op]);
    let mid = t.subrange(op + 1, i);
    let c = opt(keep_j, cl);
    let rest = t.subrange(i + 1, t.len() as int);
    let tt = matched_tokens(t, op, i, ot, ct, cl, keep_o, keep_j);
    let ss = matched_stack(s, dl_o, dl_j, keep_o, keep_j);
    let ko = b2i(keep_o);
    let kj = b2i(keep_j);
    let n = i + 1 + ko + kj;
    assert(tt == a + b + seq![ot] + mid + seq![ct] + c + rest);
    assert(b.len() == ko);
    assert(c.len() == kj);
    assert(tt.len() == t.len() + ko + kj);
    // where the tokens went
    assert forall|m: int| 0 <= m < op implies tt[m] == t[m] by {}
    assert(keep_o ==> tt[op] == t[op]);
    assert(tt[op + ko] == ot);
    assert forall|m: int| op + 1 <= m < i implies tt[m + ko] == t[m] by {}
    assert(tt[i + ko] == ct);
    assert(keep_j ==> tt[i + ko + 1] == cl);
    assert forall|m: int| i + 1 <= m < t.len() implies tt[m + ko + kj] == t[m] by {}
    // the stack
    let sp = s.subrange(0, o);
    assert(ss == sp + opt(keep_o, dl_o) + opt(keep_j, dl_j));
    assert forall|k: int| 0 <= k < o implies ss[k] == s[k] && s[k].position < op by {}
    assert(keep_o ==> ss[o] == dl_o);
    assert(keep_j ==> ss[o + ko] == dl_j);
    assert(ss.len() == o + ko + kj);
    assert forall|k: int| 0 <= k < ss.len() implies 0 <= (#[trigger] ss[k]).position < n && ss[k].position < tt.len()
        && tt[ss[k].position].token_type is Delimiter by {
        if k < o {
            assert(ss[k] == s[k]);
        } else if keep_o && k == o {
        } else {
            assert(ss[k] == dl_j);
        }
    }
    assert forall|k1: int, k2: int| 0 <= k1 < k2 < ss.len() implies (#[trigger] ss[k1]).position
        < (#[trigger] ss[k2]).position by {
        if k2 < o {
            assert(ss[k1] == s[k1]);
            assert(ss[k2] == s[k2]);
        } else if k1 < o {
            assert(ss[k1] == s[k1]);
        }
    }
    assert forall|k: int| 0 <= k < ss.len() && (#[trigger] ss[k]).position + 1 < tt.len() implies !is_closing(
        tt[ss[k].position + 1].token_type) by {
        if k < o {
            assert(ss[k] == s[k]);
            let q = s[k].position;
            if q + 1 < op {
                assert(tt[q + 1] == t[q + 1]);
            } else {
                assert(q + 1 == op);
                if keep_o {
                    assert(tt[op] == t[op]);
                } else {
                    assert(tt[op] == ot);
                }
            }
        } else if keep_o && k == o {
            assert(tt[op + 1] == ot);
        } else {
            assert(ss[k] == dl_j);
            assert(tt[n] == t[i + 1]);
            assert(!is_emphasis(t[i + 1].token_type));
        }
    }
    assert forall|m: int| n <= m < tt.len() implies !is_emphasis((#[trigger] tt[m]).token_type) by {
        assert(tt[m] == t[m - ko - kj]);
        assert(!is_emphasis(t[m - ko - kj].token_type));
    }
    // the other tokens
    lemma_parts_others(t, op, i, ot, ct, cl, keep_o, keep_j);
    lemma_parts_counts(t, op, i, ot, ct, cl, keep_o, keep_j, TokenType::OpenEmphasis);
    lemma_parts_counts(t, op, i, ot, ct, cl, keep_o, keep_j, TokenType::CloseEmphasis);
    lemma_parts_counts(t, op, i, ot, ct, cl, keep_o, keep_j, TokenType::OpenStrong);
    lemma_parts_counts(t, op, i, ot, ct, cl, keep_o, keep_j, TokenType::CloseStrong);
    lemma_parts_nested(t, op, i, ot, ct, cl, keep_o, keep_j);
    lemma_parts_delims(t, op, i, ot, ct, cl, keep_o, keep_j);
    lemma_embeds_trans(delimiter_runs(tt), delimiter_runs(t), delimiter_runs(t0));
    assert(is_emphasis(TokenType::OpenEmphasis) && is_emphasis(TokenType::CloseEmphasis));
    assert(is_emphasis(TokenType::OpenStrong) && is_emphasis(TokenType::CloseStrong));
    lemma_parts_brackets(t, op, i, ot, ct, cl, keep_o, keep_j);
    assert(tt.take(op) =~= t.take(op));
    assert forall|k: int| 0 <= k < ss.len() implies well_nested(brackets(tt.take((#[trigger] ss[k]).position))) by {
        if k < o {
            assert(ss[k] == s[k]);
            assert(tt.take(s[k].position) =~= t.take(s[k].position));
        } else if keep_o && k == o {
        } else {
            assert(ss[k] == dl_j);
        }
    }
}

#[verifier::rlimit(100)]
#[verifier::spinoff_prover]
proof fn lemma_match_state(t0: Seq<TokenView>, t: Seq<TokenView>, s: Seq<DelimView>, i: int, d: DelimView)
    requires
        pass_state(t0, t, s, i),
        i < t.len(),
        d.position == i,
        t[i].token_type is Delimiter,
        s.len() > 0,
    ensures
        match_delims(t, s.push(d), i, d.length) matches Some((t5, s6, i4)) ==> pass_state(t0, t5, s6, i4 + 1),
{
    let s1 = s.push(d);
    let j = s.len() as int;
    let o = j - 1;
    lemma_pass_state_facts(t0, t, s, i);
    assert(s1[o] == s[o]);
    assert(s1[j] == d);
    assert(s[o] == s.last());
    let op = s[o].position;
    assert(0 <= op < i);
    let strong = d.length >= 2 && s[o].length >= 2;
    let use_len = if strong { 2int } else { 1int };
    if let Some((t2, i2, shift)) = apply_emphasis(t, op, strong, i) {
        assert(!is_closing(t[op + 1].token_type));
        let open = if strong { TokenType::OpenStrong } else { TokenType::OpenEmphasis };
        let close = if strong { TokenType::CloseStrong } else { TokenType::CloseEmphasis };
        let ot = with_kind(t[op], open, emphasis_lexeme(strong));
        let t1 = t.insert(op + 1, ot);
        assert(t1[i + 1] == t[i]);
        let ct = with_kind(t[i], close, emphasis_lexeme(strong));
        assert(t2 == t1.insert(i + 1, ct));
        assert(shift == 1 && i2 == i + 2);
        let a = t.subrange(0, op);
        let mid = t.subrange(op + 1, i);
        let rest = t.subrange(i + 1, t.len() as int);
        assert(t2 =~= a + seq![t[op]] + seq![ot] + mid + seq![ct] + seq![t[i]] + rest);
        if forall|k: int| 0 <= k < s1.len() && s1[k].position > op ==> s1[k].position + 2 <= usize::MAX {
            let s2 = shift_up(s1, op, 2);
            assert forall|k: int| 0 <= k <= o implies s2[k] == s1[k] by {
                if k < o {
                    assert(s[k].position < s[o].position);
                }
            }
            let dj = DelimView { position: i + 2, length: d.length, can_open: d.can_open };
            assert(s2[j] == dj);
            let nl = d.length - use_len;
            if nl >= 0 {
                let s3 = s2.update(j, set_length(dj, nl));
                let l = t2[i + 2].lexeme;
                assert(t2[i + 2] == t[i]);
                let cl = with_kind(t[i], t[i].token_type, l.take(if nl < l.len() { nl } else { l.len() as int }));
                let t3 = truncate_lexeme(t2, i + 2, nl);
                assert(t3 =~= a + seq![t[op]] + seq![ot] + mid + seq![ct] + seq![cl] + rest);
                let keep_j = nl != 0;
                let t4 = if keep_j { t3 } else { t3.remove(i + 2) };
                let s4 = if keep_j { s3 } else { s3.remove(j) };
                let i3 = if keep_j { i + 2 } else { i + 1 };
                if !keep_j {
                    assert(shift_down(s3, j + 1) =~= s3);
                }
                assert(match_delims(t, s1, i, d.length) == {
                    let ol = s4[o].length - use_len;
                    if ol < 0 {
                        None
                    } else {
                        let s5 = s4.update(o, set_length(s4[o], ol));
                        if ol == 0 {
                            remove_delim(t4, s5, o, i3)
                        } else {
                            Some((t4, s5, i3))
                        }
                    }
                });
                assert(t4 =~= a + seq![t[op]] + seq![ot] + mid + seq![ct] + opt(keep_j, cl) + rest);
                let sp = s.subrange(0, o);
                assert(s4 =~= sp + seq![s[o]] + opt(keep_j, set_length(dj, nl)));
                assert(s4[o] == s[o]);
                let ol = s[o].length - use_len;
                if ol >= 0 {
                    let keep_o = ol != 0;
                    let dl_o = set_length(s[o], ol);
                    let s5 = s4.update(o, dl_o);
                    let kj = b2i(keep_j);
                    let ko = b2i(keep_o);
                    let dl_j = DelimView { position: i + ko + kj, length: nl, can_open: d.can_open };
                    assert(cl.lexeme =~= t[i].lexeme.take(cl.lexeme.len() as int));
                    assert(shrunk(cl, t[i]));
                    lemma_state_of_parts(t0, t, s, i, ot, ct, cl, keep_o, keep_j, dl_o, dl_j);
                    if keep_o {
                        assert(s5 =~= matched_stack(s, dl_o, dl_j, keep_o, keep_j));
                        assert(t4 =~= matched_tokens(t, op, i, ot, ct, cl, keep_o, keep_j));
                    } else {
                        assert(t4[op] == t[op]);
                        assert(t4.remove(op) =~= matched_tokens(t, op, i, ot, ct, cl, keep_o, keep_j));
                        assert(shift_down(s5, o + 1).remove(o) =~= matched_stack(s, dl_o, dl_j, keep_o, keep_j));
                    }
                }
            }
        }
    }
}

proof fn lemma_step_state(t0: Seq<TokenView>, t: Seq<TokenView>, s: Seq<DelimView>, i: int)
    requires
        pass_state(t0, t, s, i),
        i < t.len(),
    ensures
        delim_step(t, s, i) matches Some((t2, s2, i2)) ==> pass_state(t0, t2, s2, i2),
{
    match t[i].token_type {
        TokenType::Delimiter { .. } => {},
        _ => {
            reveal(pass_state);
            lemma_take_next(t, i);
        },
    }
    match t[i].token_type {
        TokenType::Delimiter { length, can_open, can_close } => {
            let dv = DelimView { position: i, length: length as int, can_open };
            lemma_push_state(t0, t, s, i, dv);
            if can_close && s.len() > 0 {
                lemma_match_state(t0, t, s, i, dv);
            }
        },
        _ => {},
    }
}

proof fn lemma_loop_state(t0: Seq<TokenView>, t: Seq<TokenView>, s: Seq<DelimView>, i: int)
    requires
        pass_state(t0, t, s, i),
    ensures
        delim_loop(t, s, i) matches Some(r) ==> other_tokens(r) == other_tokens(t0) && emphasis_balanced(r)
            && emphasis_nested(r) && embeds(delimiter_runs(r), delimiter_runs(t0)) && well_nested(brackets(r)),
    decreases t.len() - i,
{
    reveal(pass_state);
    if i >= t.len() {
        assert(t.take(i) =~= t);
    }
    if i < t.len() {
        lemma_step_state(t0, t, s, i);
        lemma_delim_step(t, s, i);
        if let Some((t2, s2, i2)) = delim_step(t, s, i) {
            lemma_loop_state(t0, t2, s2, i2);
        }
    }
}

/// On tokens without emphasis tokens (as the scanner makes them), the delimiter pass keeps
/// every token that is neither a delimiter run nor an emphasis token, in the same order.
pub proof fn lemma_resolve_keeps_other_tokens(t: Seq<TokenView>)
    requires
        forall|k: int| 0 <= k < t.len() ==> !is_emphasis((#[trigger] t[k]).token_type),
    ensures
        resolve_delimiters(t) matches Some(r) ==> other_tokens(r) == other_tokens(t),
{
    lemma_count_kind_none(t, TokenType::OpenEmphasis);
    lemma_count_kind_none(t, TokenType::CloseEmphasis);
    lemma_count_kind_none(t, TokenType::OpenStrong);
    lemma_count_kind_none(t, TokenType::CloseStrong);
    lemma_leads_none(t, TokenType::OpenEmphasis, TokenType::CloseEmphasis);
    lemma_leads_none(t, TokenType::OpenStrong, TokenType::CloseStrong);
    lemma_embeds_refl(delimiter_runs(t));
    lemma_brackets_none(t.take(0));
    reveal(pass_state);
    lemma_loop_state(t, t, Seq::empty(), 0);
}

/// On tokens without emphasis tokens (as the scanner makes them), the delimiter pass puts in
/// as many opening as closing tokens of emphasis, and as many of strong emphasis, and no
/// prefix of the result closes more of either kind than it opens: each match puts an opening
/// token after the opener and a closing token before the closer.
pub proof fn lemma_resolve_balances_emphasis(t: Seq<TokenView>)
    requires
        forall|k: int| 0 <= k < t.len() ==> !is_emphasis((#[trigger] t[k]).token_type),
    ensures
        resolve_delimiters(t) matches Some(r) ==> emphasis_balanced(r) && emphasis_nested(r),
{
    lemma_count_kind_none(t, TokenType::OpenEmphasis);
    lemma_count_kind_none(t, TokenType::CloseEmphasis);
    lemma_count_kind_none(t, TokenType::OpenStrong);
    lemma_count_kind_none(t, TokenType::CloseStrong);
    lemma_leads_none(t, TokenType::OpenEmphasis, TokenType::CloseEmphasis);
    lemma_leads_none(t, TokenType::OpenStrong, TokenType::CloseStrong);
    lemma_embeds_refl(delimiter_runs(t));
    lemma_brackets_none(t.take(0));
    reveal(pass_state);
    lemma_loop_state(t, t, Seq::empty(), 0);
}

/// On tokens without emphasis tokens (as the scanner makes them), the delimiter runs left after
/// the pass are runs of the input, in the same order, each with its kind, line and position
/// and a prefix of its text.
pub proof fn lemma_resolve_shrinks_delimiter_runs(t: Seq<TokenView>)
    requires
        forall|k: int| 0 <= k < t.len() ==> !is_emphasis((#[trigger] t[k]).token_type),
    ensures
        resolve_delimiters(t) matches Some(r) ==> embeds(delimiter_runs(r), delimiter_runs(t)),
{
    lemma_count_kind_none(t, TokenType::OpenEmphasis);
    lemma_count_kind_none(t, TokenType::CloseEmphasis);
    lemma_count_kind_none(t, TokenType::OpenStrong);
    lemma_count_kind_none(t, TokenType::CloseStrong);
    lemma_leads_none(t, TokenType::OpenEmphasis, TokenType::CloseEmphasis);
    lemma_leads_none(t, TokenType::OpenStrong, TokenType::CloseStrong);
    lemma_embeds_refl(delimiter_runs(t));
    lemma_brackets_none(t.take(0));
    reveal(pass_state);
    lemma_loop_state(t, t, Seq::empty(), 0);
}

/// On tokens without emphasis tokens (as the scanner makes them), the opening and closing
/// tokens the delimiter pass puts in nest across both kinds: each closing token closes the
/// last opening token still open, and it is of its own kind; none is left open.
pub proof fn lemma_resolve_nests_emphasis(t: Seq<TokenView>)
    requires
        forall|k: int| 0 <= k < t.len() ==> !is_emphasis((#[trigger] t[k]).token_type),
    ensures
        resolve_delimiters(t) matches Some(r) ==> well_nested(brackets(r)),
{
    lemma_count_kind_none(t, TokenType::OpenEmphasis);
    lemma_count_kind_none(t, TokenType::CloseEmphasis);
    lemma_count_kind_none(t, TokenType::OpenStrong);
    lemma_count_kind_none(t, TokenType::CloseStrong);
    lemma_leads_none(t, TokenType::OpenEmphasis, TokenType::CloseEmphasis);
    lemma_leads_none(t, TokenType::OpenStrong, TokenType::CloseStrong);
    lemma_embeds_refl(delimiter_runs(t));
    lemma_brackets_none(t.take(0));
    reveal(pass_state);
    lemma_loop_state(t, t, Seq::empty(), 0);
}

} // verus!
