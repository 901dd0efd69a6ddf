use vstd::prelude::*;
use vstd::string::StringSliceAdditionalSpecFns;

verus! {

/// A weight written in decimal: `mantissa / 10^decimals` (`1.5` is 15 with
/// one decimal).
#[derive(Debug, Clone, Copy, PartialEq, Eq, Structural)]
pub struct Weight {
    pub mantissa: u64,
    pub decimals: u8,
}

/// The most decimals a numeric literal may have.
pub const MAX_DECIMALS: u64 = 18;

/// `10^n`.
pub open spec fn pow10(n: nat) -> nat
    decreases n,
{
    if n == 0 { 1 } else { 10 * pow10((n - 1) as nat) }
}

/// A nested list in RQQ notation: a number, or a list of nested lists.
#[derive(Debug)]
pub enum RQQ {
    Elem(Weight),
    List(Vec<RQQ>),
}

/// A lexical unit of RQQ text.
#[derive(Debug, Clone, Copy, PartialEq, Eq, Structural)]
pub enum Token {
    Open,
    Close,
    Num(Weight),
}

/// Why a text or a nested list is not a valid metric structure.
#[derive(Debug, Clone, Copy, PartialEq, Eq, Structural)]
pub enum RqqError {
    /// The text holds nothing.
    EmptyInput,
    /// A list without any element.
    EmptyList,
    /// A list whose shape is not `(total (items...))`.
    MalformedList,
    /// A character that is neither a digit, a parenthesis nor a separator,
    /// or a number too large to hold.
    NotANumber,
    /// More beats or levels than a rank can hold, or numbers too large to
    /// compute with.
    TooLarge,
    /// The bar, or a group within it, has no length: its weights are all 0.
    ZeroLength,
}

pub open spec fn is_digit(c: u8) -> bool {
    48 <= c <= 57
}

/// Whitespace and the comma separate numbers.
pub open spec fn is_separator(c: u8) -> bool {
    c == 32 || c == 44 || c == 9 || c == 10 || c == 13
}

/// The end of the run of digits that starts at `i`.
pub open spec fn digits_end(b: Seq<u8>, i: int) -> int
    decreases b.len() - i,
{
    if i < 0 || i >= b.len() || !is_digit(b[i]) {
        i
    } else {
        digits_end(b, i + 1)
    }
}

/// The decimal value of a run of digits.
pub open spec fn digits_value(d: Seq<u8>) -> nat
    decreases d.len(),
{
    if d.len() == 0 {
        0
    } else {
        digits_value(d.drop_last()) * 10 + (d.last() - 48) as nat
    }
}

/// The tokens of `b` from position `i` on, or `None` where a character is
/// not allowed or a number does not fit. A numeric literal is a run of
/// digits, optionally followed by `.` and a run of at most `MAX_DECIMALS`
/// digits; its digits together must fit in 64 bits.
pub open spec fn lex_from(b: Seq<u8>, i: int) -> Option<Seq<Token>>
    decreases b.len() - i,
{
    if i < 0 || i >= b.len() {
        Some(Seq::empty())
    } else if b[i] == 40 {
        match lex_from(b, i + 1) {
            Some(t) => Some(seq![Token::Open] + t),
            None => None,
        }
    } else if b[i] == 41 {
        match lex_from(b, i + 1) {
            Some(t) => Some(seq![Token::Close] + t),
            None => None,
        }
    } else if is_separator(b[i]) {
        lex_from(b, i + 1)
    } else if is_digit(b[i]) {
        let j = digits_end(b, i);
        if j <= i || j > b.len() || digits_value(b.subrange(i, j)) > u64::MAX {
            None
        } else if j + 1 < b.len() && b[j] == 46 && is_digit(b[j + 1]) {
            let k = digits_end(b, j + 1);
            let l = k - j - 1;
            if k <= j + 1 || k > b.len() || l > MAX_DECIMALS
                || digits_value(b.subrange(i, j)) * pow10(l as nat) + digits_value(b.subrange(j + 1, k)) > u64::MAX {
                None
            } else {
                let m = digits_value(b.subrange(i, j)) * pow10(l as nat) + digits_value(b.subrange(j + 1, k));
                match lex_from(b, k) {
                    Some(t) => Some(seq![Token::Num(Weight { mantissa: m as u64, decimals: l as u8 })] + t),
                    None => None,
                }
            }
        } else {
            let v = digits_value(b.subrange(i, j));
            match lex_from(b, j) {
                Some(t) => Some(seq![Token::Num(Weight { mantissa: v as u64, decimals: 0 })] + t),
                None => None,
            }
        }
    } else {
        None
    }
}

proof fn lemma_digits_end(b: Seq<u8>, i: int)
    requires
        0 <= i <= b.len(),
    ensures
        i <= digits_end(b, i) <= b.len(),
        forall|k: int| i <= k < digits_end(b, i) ==> is_digit(#[trigger] b[k]),
        digits_end(b, i) < b.len() ==> !is_digit(b[digits_end(b, i)]),
    decreases b.len() - i,
{
    if i < b.len() && is_digit(b[i]) {
        lemma_digits_end(b, i + 1);
    }
}

/// Reads the run of digits at `i`: its end, and its value unless that
/// exceeds 64 bits.
fn read_number(b: &[u8], i: usize) -> (r: (usize, Option<u64>))
    requires
        i < b@.len(),
        is_digit(b@[i as int]),
    ensures
        r.0 == digits_end(b@, i as int),
        r.1 is Some <==> digits_value(b@.subrange(i as int, r.0 as int)) <= u64::MAX,
        r.1 is Some ==> r.1->Some_0 == digits_value(b@.subrange(i as int, r.0 as int)),
{
    proof {
        lemma_digits_end(b@, i as int);
    }
    let mut j: usize = i;
    let mut value: u64 = 0;
    let mut fits = true;
    while j < b.len() && 48 <= b[j] && b[j] <= 57
        invariant
            i <= j <= digits_end(b@, i as int),
            digits_end(b@, i as int) <= b@.len(),
            forall|k: int| i <= k < digits_end(b@, i as int) ==> is_digit(#[trigger] b@[k]),
            digits_end(b@, i as int) < b@.len() ==> !is_digit(b@[digits_end(b@, i as int)]),
            fits <==> digits_value(b@.subrange(i as int, j as int)) <= u64::MAX,
            fits ==> value == digits_value(b@.subrange(i as int, j as int)),
        decreases b@.len() - j,
    {
        let d = (b[j] - 48) as u64;
        proof {
            let pre = b@.subrange(i as int, j as int);
            let post = b@.subrange(i as int, j + 1);
            assert(post.drop_last() =~= pre);
            assert(post.last() == b@[j as int]);
            assert(digits_value(post) == digits_value(pre) * 10 + d);
        }
        if fits {
            if value <= (u64::MAX - d) / 10 {
                value = value * 10 + d;
            } else {
                fits = false;
            }
        } else {
            proof {
                let pre = b@.subrange(i as int, j as int);
                assert(digits_value(pre) * 10 + d > u64::MAX) by (nonlinear_arith)
                    requires digits_value(pre) > u64::MAX;
            }
        }
        j += 1;
    }
    if fits {
        (j, Some(value))
    } else {
        (j, None)
    }
}

/// `acc` followed by the tokens of `rest`, if `rest` has any.
pub open spec fn prepend(acc: Seq<Token>, rest: Option<Seq<Token>>) -> Option<Seq<Token>> {
    match rest {
        Some(t) => Some(acc + t),
        None => None,
    }
}

/// Splits RQQ text into tokens; `None` where `lex_from` finds none.
pub fn tokenize(b: &[u8]) -> (r: Option<Vec<Token>>)
    ensures
        r is Some <==> lex_from(b@, 0) is Some,
        r is Some ==> lex_from(b@, 0) == Some(r->Some_0@),
{
    let mut toks: Vec<Token> = Vec::new();
    let mut i: usize = 0;
    proof {
        assert(Seq::<Token>::empty() + lex_from(b@, 0)->Some_0 =~= lex_from(b@, 0)->Some_0);
    }
    while i < b.len()
        invariant
            i <= b@.len(),
            lex_from(b@, 0) == prepend(toks@, lex_from(b@, i as int)),
        decreases b@.len() - i,
    {
        let c = b[i];
        if c == 40 || c == 41 {
            let t = if c == 40 { Token::Open } else { Token::Close };
            proof {
                match lex_from(b@, i + 1) {
                    Some(rest) => {
                        assert(toks@.push(t) + rest =~= toks@ + (seq![t] + rest));
                    },
                    None => {},
                }
            }
            toks.push(t);
            i += 1;
        } else if c == 32 || c == 44 || c == 9 || c == 10 || c == 13 {
            i += 1;
        } else if 48 <= c && c <= 57 {
            let (j, v) = read_number(b, i);
            proof {
                lemma_digits_end(b@, i as int);
            }
            let v = match v {
                Some(n) => {
                    if j < b.len() && j + 1 < b.len() && b[j] == 46 && 48 <= b[j + 1] && b[j + 1] <= 57 {
                        let (k, f) = read_number(b, j + 1);
                        proof {
                            lemma_digits_end(b@, j + 1);
                        }
                        let l = k - j - 1;
                        if l as u64 > MAX_DECIMALS {
                            return None;
                        }
                        proof {
                            lemma_pow10_mono(l as nat, 18);
                            reveal_with_fuel(pow10, 20);
                            assert(pow10(18) == 1_000_000_000_000_000_000);
                        }
                        let p = match pow10_u128(l as u32) {
                            Some(p) => p,
                            None => {
                                return None;
                            },
                        };
                        proof {
                            assert(n as int * p <= 0xffff_ffff_ffff_ffff * 1_000_000_000_000_000_000) by (nonlinear_arith)
                                requires n <= 0xffff_ffff_ffff_ffff, p <= 1_000_000_000_000_000_000;
                        }
                        let f = match f {
                            Some(f) => f,
                            None => {
                                proof {
                                    assert(n as int * pow10(l as nat) >= 0) by (nonlinear_arith);
                                }
                                return None;
                            },
                        };
                        let m: u128 = n as u128 * p + f as u128;
                        if m > u64::MAX as u128 {
                            return None;
                        }
                        let w = Weight { mantissa: m as u64, decimals: l as u8 };
                        proof {
                            match lex_from(b@, k as int) {
                                Some(rest) => {
                                    assert(toks@.push(Token::Num(w)) + rest =~= toks@ + (seq![Token::Num(w)] + rest));
                                },
                                None => {},
                            }
                        }
                        toks.push(Token::Num(w));
                        i = k;
                        continue;
                    }
                    Some(Weight { mantissa: n, decimals: 0 })
                },
                None => None,
            };
            match v {
                Some(n) => {
                    proof {
                        match lex_from(b@, j as int) {
                            Some(rest) => {
                                assert(toks@.push(Token::Num(n)) + rest =~= toks@ + (seq![Token::Num(n)] + rest));
                            },
                            None => {},
                        }
                    }
                    toks.push(Token::Num(n));
                    i = j;
                },
                None => {
                    return None;
                },
            }
        } else {
            return None;
        }
    }
    proof {
        assert(toks@ + Seq::<Token>::empty() =~= toks@);
    }
    Some(toks)
}

/// The tokens that write out a nested list.
pub open spec fn render(t: RQQ) -> Seq<Token>
    decreases t,
{
    match t {
        RQQ::Elem(n) => seq![Token::Num(n)],
        RQQ::List(v) => seq![Token::Open] + render_all(v@) + seq![Token::Close],
    }
}

/// The tokens of several nested lists, one after the other.
pub open spec fn render_all(items: Seq<RQQ>) -> Seq<Token>
    decreases items,
{
    if items.len() == 0 {
        Seq::empty()
    } else {
        render_all(items.subrange(0, items.len() - 1)) + render(items[items.len() - 1])
    }
}

/// The items of a sublist are numbers or groups.
pub open spec fn items_ok(items: Seq<RQQ>) -> bool
    decreases items,
{
    if items.len() == 0 {
        true
    } else {
        items_ok(items.subrange(0, items.len() - 1)) && (items[items.len() - 1] is Elem
            || is_group(items[items.len() - 1]))
    }
}

/// A group `(total (items...))`: a number followed by a non-empty list of
/// numbers and groups.
pub open spec fn is_group(t: RQQ) -> bool
    decreases t,
{
    match t {
        RQQ::Elem(_) => false,
        RQQ::List(v) => v.len() == 2 && v@[0] is Elem && match v@[1] {
            RQQ::Elem(_) => false,
            RQQ::List(items) => items.len() >= 1 && items_ok(items@),
        },
    }
}

/// A sublist item: a number or a group.
pub open spec fn item_ok(x: RQQ) -> bool {
    x is Elem || is_group(x)
}

/// `p` is a prefix of `s`.
pub open spec fn starts_with(s: Seq<Token>, p: Seq<Token>) -> bool {
    p.len() <= s.len() && s.subrange(0, p.len() as int) == p
}

proof fn lemma_items_ok_each(xs: Seq<RQQ>)
    requires
        items_ok(xs),
    ensures
        forall|k: int| 0 <= k < xs.len() ==> item_ok(#[trigger] xs[k]),
    decreases xs.len(),
{
    if xs.len() > 0 {
        let front = xs.subrange(0, xs.len() - 1);
        lemma_items_ok_each(front);
        assert forall|k: int| 0 <= k < xs.len() implies item_ok(#[trigger] xs[k]) by {
            if k < xs.len() - 1 {
                assert(xs[k] == front[k]);
            }
        }
    }
}

proof fn lemma_items_ok_tail(xs: Seq<RQQ>)
    requires
        xs.len() > 0,
        forall|k: int| 0 <= k < xs.len() ==> item_ok(#[trigger] xs[k]),
    ensures
        items_ok(xs.subrange(1, xs.len() as int)),
{
    lemma_items_ok_from_each(xs.subrange(1, xs.len() as int));
}

proof fn lemma_items_ok_from_each(xs: Seq<RQQ>)
    requires
        forall|k: int| 0 <= k < xs.len() ==> item_ok(#[trigger] xs[k]),
    ensures
        items_ok(xs),
    decreases xs.len(),
{
    if xs.len() > 0 {
        let front = xs.subrange(0, xs.len() - 1);
        assert forall|k: int| 0 <= k < front.len() implies item_ok(#[trigger] front[k]) by {
            assert(front[k] == xs[k]);
        }
        lemma_items_ok_from_each(front);
        assert(item_ok(xs[xs.len() - 1]));
    }
}

/// The tokens of a list of items, read from the left.
proof fn lemma_render_all_cons(xs: Seq<RQQ>)
    requires
        xs.len() > 0,
    ensures
        render_all(xs) == render(xs[0]) + render_all(xs.subrange(1, xs.len() as int)),
    decreases xs.len(),
{
    if xs.len() == 1 {
        assert(xs.subrange(0, 0) =~= Seq::<RQQ>::empty());
        assert(xs.subrange(1, 1) =~= Seq::<RQQ>::empty());
        assert(render_all(xs.subrange(0, 0)) =~= Seq::<Token>::empty());
        assert(render_all(xs) == render_all(xs.subrange(0, 0)) + render(xs[0]));
        assert(render_all(xs) =~= render(xs[0]));
        assert(render_all(xs.subrange(1, 1)) =~= Seq::<Token>::empty());
        assert(render(xs[0]) + Seq::<Token>::empty() =~= render(xs[0]));
    } else {
        let front = xs.subrange(0, xs.len() - 1);
        lemma_render_all_cons(front);
        assert(front.subrange(1, front.len() as int) =~= xs.subrange(1, xs.len() as int).subrange(0, xs.len() - 2));
        assert(xs.subrange(1, xs.len() as int)[xs.len() - 2] == xs[xs.len() - 1]);
        assert(render_all(xs.subrange(1, xs.len() as int)) == render_all(front.subrange(1, front.len() as int))
            + render(xs[xs.len() - 1]));
        assert(render_all(xs) =~= render(xs[0]) + render_all(xs.subrange(1, xs.len() as int)));
    }
}

/// The tokens of a group: `( total ( items... ) )`.
proof fn lemma_render_group(t: RQQ)
    requires
        is_group(t),
    ensures
        t matches RQQ::List(v) && v@[0] matches RQQ::Elem(n) && v@[1] matches RQQ::List(items)
            && render(t) == seq![Token::Open, Token::Num(n), Token::Open] + render_all(items@) + seq![Token::Close, Token::Close],
{
    if let RQQ::List(v) = t {
        if let RQQ::Elem(n) = v@[0] {
            if let RQQ::List(items) = v@[1] {
                let w = v@;
                let first = w.subrange(0, 1);
                assert(first.subrange(0, 0) =~= Seq::<RQQ>::empty());
                assert(render_all(first.subrange(0, 0)) =~= Seq::<Token>::empty());
                assert(first[0] == RQQ::Elem(n));
                assert(render(RQQ::Elem(n)) =~= seq![Token::Num(n)]);
                assert(render_all(first) == render_all(first.subrange(0, 0)) + render(first[0]));
                assert(render_all(first) =~= seq![Token::Num(n)]);
                assert(w.subrange(0, 1) =~= w.subrange(0, w.len() - 1));
                assert(render_all(w) =~= seq![Token::Num(n)] + render(w[1]));
                assert(render(t) =~= seq![Token::Open, Token::Num(n), Token::Open] + render_all(items@) + seq![Token::Close, Token::Close]);
            }
        }
    }
}

/// Two items whose tokens both start `s` have tokens of equal length.
proof fn lemma_render_unique(x: RQQ, y: RQQ, s: Seq<Token>)
    requires
        item_ok(x),
        item_ok(y),
        starts_with(s, render(x)),
        starts_with(s, render(y)),
    ensures
        render(x).len() == render(y).len(),
    decreases x,
{
    assert(s[0] == render(x)[0]) by {
        assert(s.subrange(0, render(x).len() as int)[0] == s[0]);
    }
    assert(s[0] == render(y)[0]) by {
        assert(s.subrange(0, render(y).len() as int)[0] == s[0]);
    }
    match x {
        RQQ::Elem(_) => {
            if y is List {
                lemma_render_group(y);
            }
        },
        RQQ::List(v) => {
            lemma_render_group(x);
            if y is Elem {
                assert(false);
            }
            lemma_render_group(y);
            if let RQQ::List(ix) = v@[1] {
                if let RQQ::List(w) = y {
                    if let RQQ::List(iy) = w@[1] {
                        let rest = s.subrange(3, s.len() as int);
                        let px = render_all(ix@) + seq![Token::Close];
                        let py = render_all(iy@) + seq![Token::Close];
                        assert(render(x) == seq![Token::Open, s[1], Token::Open] + px + seq![Token::Close]);
                        assert(rest.subrange(0, px.len() as int) =~= s.subrange(0, render(x).len() as int).subrange(3, 3 + px.len() as int));
                        assert(rest.subrange(0, py.len() as int) =~= s.subrange(0, render(y).len() as int).subrange(3, 3 + py.len() as int));
                        assert(render(x).subrange(3, 3 + px.len() as int) =~= px);
                        assert(render(y).subrange(3, 3 + py.len() as int) =~= py);
                        assert(decreases_to!(x => ix@));
                        lemma_render_items_unique(ix@, iy@, rest);
                    }
                }
            }
        },
    }
}

/// Two item lists whose tokens, closed by `)`, both start `s` have tokens of
/// equal length.
proof fn lemma_render_items_unique(xs: Seq<RQQ>, ys: Seq<RQQ>, s: Seq<Token>)
    requires
        items_ok(xs),
        items_ok(ys),
        starts_with(s, render_all(xs) + seq![Token::Close]),
        starts_with(s, render_all(ys) + seq![Token::Close]),
    ensures
        render_all(xs).len() == render_all(ys).len(),
    decreases xs,
{
    lemma_items_ok_each(xs);
    lemma_items_ok_each(ys);
    let px = render_all(xs) + seq![Token::Close];
    let py = render_all(ys) + seq![Token::Close];
    assert(s[0] == px[0]) by {
        assert(s.subrange(0, px.len() as int)[0] == s[0]);
    }
    assert(s[0] == py[0]) by {
        assert(s.subrange(0, py.len() as int)[0] == s[0]);
    }
    if xs.len() == 0 {
        if ys.len() > 0 {
            lemma_render_all_cons(ys);
            assert(item_ok(ys[0]));
            if ys[0] is List {
                lemma_render_group(ys[0]);
            }
            assert(py[0] == render(ys[0])[0]);
        }
    } else if ys.len() == 0 {
        lemma_render_all_cons(xs);
        assert(item_ok(xs[0]));
        if xs[0] is List {
            lemma_render_group(xs[0]);
        }
        assert(px[0] == render(xs[0])[0]);
    } else {
        lemma_render_all_cons(xs);
        lemma_render_all_cons(ys);
        let hx = render(xs[0]);
        let hy = render(ys[0]);
        assert(s.subrange(0, hx.len() as int) =~= s.subrange(0, px.len() as int).subrange(0, hx.len() as int));
        assert(px.subrange(0, hx.len() as int) =~= hx);
        assert(s.subrange(0, hy.len() as int) =~= s.subrange(0, py.len() as int).subrange(0, hy.len() as int));
        assert(py.subrange(0, hy.len() as int) =~= hy);
        lemma_render_unique(xs[0], ys[0], s);
        let l = hx.len() as int;
        let tx = xs.subrange(1, xs.len() as int);
        let ty = ys.subrange(1, ys.len() as int);
        lemma_items_ok_tail(xs);
        lemma_items_ok_tail(ys);
        let rest = s.subrange(l, s.len() as int);
        let qx = render_all(tx) + seq![Token::Close];
        let qy = render_all(ty) + seq![Token::Close];
        assert(px =~= hx + qx);
        assert(py =~= hy + qy);
        assert(rest.subrange(0, qx.len() as int) =~= s.subrange(0, px.len() as int).subrange(l, px.len() as int));
        assert(px.subrange(l, px.len() as int) =~= qx);
        assert(rest.subrange(0, qy.len() as int) =~= s.subrange(0, py.len() as int).subrange(l, py.len() as int));
        assert(py.subrange(l, py.len() as int) =~= qy);
        lemma_render_items_unique(tx, ty, rest);
    }
}

proof fn lemma_render_all_split(xs: Seq<RQQ>, n: int)
    requires
        0 <= n <= xs.len(),
    ensures
        render_all(xs) == render_all(xs.subrange(0, n)) + render_all(xs.subrange(n, xs.len() as int)),
    decreases xs.len() - n,
{
    if n == xs.len() {
        assert(xs.subrange(0, n) =~= xs);
        assert(xs.subrange(n, n) =~= Seq::<RQQ>::empty());
        assert(render_all(xs.subrange(n, n)) =~= Seq::<Token>::empty());
        assert(render_all(xs) + Seq::<Token>::empty() =~= render_all(xs));
    } else {
        lemma_render_all_split(xs, n + 1);
        let tail = xs.subrange(n, xs.len() as int);
        lemma_render_all_cons(tail);
        assert(tail.subrange(1, tail.len() as int) =~= xs.subrange(n + 1, xs.len() as int));
        assert(xs.subrange(0, n + 1).subrange(0, n) =~= xs.subrange(0, n));
        assert(render_all(xs.subrange(0, n + 1)) == render_all(xs.subrange(0, n)) + render(xs[n]));
        assert(render_all(xs) =~= render_all(xs.subrange(0, n)) + render_all(tail));
    }
}

proof fn lemma_starts_with_parts(s: Seq<Token>, a: Seq<Token>, b: Seq<Token>)
    requires
        starts_with(s, a + b),
    ensures
        starts_with(s, a),
        starts_with(s.subrange(a.len() as int, s.len() as int), b),
{
    assert(s.subrange(0, a.len() as int) =~= s.subrange(0, (a + b).len() as int).subrange(0, a.len() as int));
    assert((a + b).subrange(0, a.len() as int) =~= a);
    let t = s.subrange(a.len() as int, s.len() as int);
    assert(t.subrange(0, b.len() as int) =~= s.subrange(0, (a + b).len() as int).subrange(a.len() as int, (a + b).len() as int));
    assert((a + b).subrange(a.len() as int, (a + b).len() as int) =~= b);
}

/// Somewhere an opening parenthesis is followed at once by a closing one.
pub open spec fn has_empty_list(toks: Seq<Token>) -> bool {
    exists|q: int| 0 <= q && q + 1 < toks.len() && #[trigger] toks[q] == Token::Open && toks[q + 1] == Token::Close
}

/// Parses a group at `pos`: its tree and the position after it. It succeeds
/// whenever the tokens from `pos` on start with the tokens of a group.
fn parse_group(toks: &Vec<Token>, pos: usize) -> (r: Result<(RQQ, usize), RqqError>)
    ensures
        r == Err::<(RQQ, usize), RqqError>(RqqError::EmptyList) ==> has_empty_list(toks@),
        r is Ok ==> pos < r->Ok_0.1 <= toks.len()
            && is_group(r->Ok_0.0)
            && toks@.subrange(pos as int, r->Ok_0.1 as int) == render(r->Ok_0.0),
        forall|t: RQQ| #[trigger] is_group(t) && pos <= toks.len() && starts_with(toks@.subrange(pos as int, toks.len() as int), render(t))
            ==> r is Ok && r->Ok_0.1 == pos + render(t).len(),
    decreases toks.len() - pos, 1nat,
{
    let ghost rest = toks@.subrange(pos as int, toks.len() as int);
    let ghost has_target = pos <= toks.len() && exists|t: RQQ| #[trigger] is_group(t) && starts_with(rest, render(t));
    let ghost target = if has_target { choose|t: RQQ| #[trigger] is_group(t) && starts_with(rest, render(t)) } else { RQQ::Elem(Weight { mantissa: 0, decimals: 0 }) };
    let ghost inner: Seq<RQQ> = Seq::empty();
    proof {
        if has_target {
            lemma_render_group(target);
            if let RQQ::List(v) = target {
                if let RQQ::List(items) = v@[1] {
                    inner = items@;
                }
            }
            let rt = render(target);
            assert(rest[0] == rt[0] && rest[1] == rt[1] && rest[2] == rt[2]) by {
                assert(rest.subrange(0, rt.len() as int)[0] == rest[0]);
                assert(rest.subrange(0, rt.len() as int)[1] == rest[1]);
                assert(rest.subrange(0, rt.len() as int)[2] == rest[2]);
            }
            assert(rt =~= seq![Token::Open, rt[1]] + ((seq![Token::Open] + render_all(inner) + seq![Token::Close]) + seq![Token::Close]));
            lemma_starts_with_parts(rest, seq![Token::Open, rt[1]], (seq![Token::Open] + render_all(inner) + seq![Token::Close]) + seq![Token::Close]);
            lemma_starts_with_parts(rest.subrange(2, rest.len() as int), seq![Token::Open] + render_all(inner) + seq![Token::Close], seq![Token::Close]);
            assert(rest.subrange(2, rest.len() as int) =~= toks@.subrange(pos + 2, toks.len() as int));
        }
    }
    if pos >= toks.len() || toks[pos] != Token::Open {
        proof {
            if has_target {
                assert(toks@[pos as int] == rest[0]);
            }
        }
        return Err(RqqError::MalformedList);
    }
    if pos + 1 >= toks.len() {
        return Err(RqqError::MalformedList);
    }
    let total = match toks[pos + 1] {
        Token::Num(n) => n,
        Token::Close => {
            proof {
                if has_target {
                    assert(toks@[pos + 1] == rest[1]);
                }
            }
            proof {
                assert(toks@[pos as int] == Token::Open && toks@[pos + 1] == Token::Close);
            }
            return Err(RqqError::EmptyList);
        },
        Token::Open => {
            proof {
                if has_target {
                    assert(toks@[pos + 1] == rest[1]);
                }
            }
            return Err(RqqError::MalformedList);
        },
    };
    let (items, after) = match parse_sublist(toks, pos + 2) {
        Ok(x) => x,
        Err(e) => {
            proof {
                if has_target {
                    assert(items_ok(inner));
                }
            }
            return Err(e);
        },
    };
    proof {
        if has_target {
            assert(items_ok(inner));
            assert(after == pos + 2 + render_all(inner).len() + 2);
        }
    }
    if after >= toks.len() || toks[after] != Token::Close {
        proof {
            if has_target {
                let sub = toks@.subrange(pos + 2, toks.len() as int);
                let tail = sub.subrange((seq![Token::Open] + render_all(inner) + seq![Token::Close]).len() as int, sub.len() as int);
                assert(tail[0] == Token::Close) by {
                    assert(tail.subrange(0, 1)[0] == tail[0]);
                }
                assert(tail[0] == toks@[after as int]);
            }
        }
        return Err(RqqError::MalformedList);
    }
    let ghost items_tree = items;
    let mut v: Vec<RQQ> = Vec::new();
    v.push(RQQ::Elem(total));
    v.push(items);
    let t = RQQ::List(v);
    proof {
        let inner_seq = seq![RQQ::Elem(total), items_tree];
        assert(v@ =~= inner_seq);
        let first = inner_seq.subrange(0, 1);
        assert(first.subrange(0, 0) =~= Seq::<RQQ>::empty());
        assert(first[0] == RQQ::Elem(total));
        assert(render(RQQ::Elem(total)) =~= seq![Token::Num(total)]);
        assert(render_all(first) =~= render_all(first.subrange(0, 0)) + render(first[0]));
        assert(render_all(first) =~= seq![Token::Num(total)]);
        assert(render_all(inner_seq) =~= seq![Token::Num(total)] + render(items_tree));
        assert(toks@.subrange(pos as int, after + 1) =~= seq![Token::Open] + (seq![Token::Num(total)]
            + toks@.subrange(pos + 2, after as int)) + seq![Token::Close]);
        assert forall|u: RQQ| #[trigger] is_group(u) && pos <= toks.len() && starts_with(toks@.subrange(pos as int, toks.len() as int), render(u))
            implies after + 1 == pos + render(u).len() by {
            lemma_render_unique(u, target, rest);
            lemma_render_group(target);
        }
    }
    Ok((t, after + 1))
}

/// Parses a sublist `(items...)` at `pos`: its tree and the position after
/// it. It succeeds whenever the tokens from `pos` on start with the tokens of
/// a non-empty list of numbers and groups.
fn parse_sublist(toks: &Vec<Token>, pos: usize) -> (r: Result<(RQQ, usize), RqqError>)
    ensures
        r == Err::<(RQQ, usize), RqqError>(RqqError::EmptyList) ==> has_empty_list(toks@),
        r is Ok ==> pos < r->Ok_0.1 <= toks.len()
            && (r->Ok_0.0 matches RQQ::List(items) && items.len() >= 1 && items_ok(items@))
            && toks@.subrange(pos as int, r->Ok_0.1 as int) == render(r->Ok_0.0),
        forall|xs: Seq<RQQ>| #[trigger] items_ok(xs) && xs.len() >= 1 && pos <= toks.len()
            && starts_with(toks@.subrange(pos as int, toks.len() as int), seq![Token::Open] + render_all(xs) + seq![Token::Close])
            ==> r is Ok && r->Ok_0.1 == pos + render_all(xs).len() + 2,
    decreases toks.len() - pos, 0nat,
{
    let ghost rest = toks@.subrange(pos as int, toks.len() as int);
    let ghost has_target = pos <= toks.len() && exists|xs: Seq<RQQ>| #[trigger] items_ok(xs) && xs.len() >= 1
        && starts_with(rest, seq![Token::Open] + render_all(xs) + seq![Token::Close]);
    let ghost target: Seq<RQQ> = if has_target {
        choose|xs: Seq<RQQ>| #[trigger] items_ok(xs) && xs.len() >= 1
            && starts_with(rest, seq![Token::Open] + render_all(xs) + seq![Token::Close])
    } else {
        Seq::empty()
    };
    proof {
        if has_target {
            lemma_items_ok_each(target);
            assert(seq![Token::Open] + render_all(target) + seq![Token::Close] =~= seq![Token::Open] + (render_all(target) + seq![Token::Close]));
            lemma_starts_with_parts(rest, seq![Token::Open], render_all(target) + seq![Token::Close]);
            assert(rest[0] == Token::Open) by {
                assert(rest.subrange(0, 1)[0] == rest[0]);
            }
            assert(rest.subrange(1, rest.len() as int) =~= toks@.subrange(pos + 1, toks.len() as int));
            assert(target.subrange(0, target.len() as int) =~= target);
            assert(target.subrange(0, 0) =~= Seq::<RQQ>::empty());
            lemma_render_all_split(target, 0);
        }
    }
    if pos >= toks.len() || toks[pos] != Token::Open {
        proof {
            if has_target {
                assert(toks@[pos as int] == rest[0]);
            }
        }
        return Err(RqqError::MalformedList);
    }
    let mut items: Vec<RQQ> = Vec::new();
    let mut p: usize = pos + 1;
    proof {
        assert(toks@.subrange(pos as int, p as int) =~= seq![Token::Open] + render_all(items@));
    }
    while p < toks.len() && toks[p] != Token::Close
        invariant
            pos < p <= toks.len(),
            rest == toks@.subrange(pos as int, toks.len() as int),
            has_target == (pos <= toks.len() && exists|xs: Seq<RQQ>| #[trigger] items_ok(xs) && xs.len() >= 1
                && starts_with(rest, seq![Token::Open] + render_all(xs) + seq![Token::Close])),
            items_ok(items@),
            toks@.subrange(pos as int, p as int) == seq![Token::Open] + render_all(items@),
            has_target ==> items.len() <= target.len(),
            items.len() == 0 ==> p == pos + 1,
            toks@[pos as int] == Token::Open,
            has_target ==> forall|k: int| 0 <= k < target.len() ==> item_ok(#[trigger] target[k]),
            has_target ==> starts_with(toks@.subrange(p as int, toks.len() as int),
                render_all(target.subrange(items.len() as int, target.len() as int)) + seq![Token::Close]),
            has_target ==> p + render_all(target.subrange(items.len() as int, target.len() as int)).len()
                == pos + 1 + render_all(target).len(),
        decreases toks.len() - p,
    {
        let ghost before = items@;
        let ghost p0 = p;
        let ghost n = items.len() as int;
        let ghost here = toks@.subrange(p as int, toks.len() as int);
        let ghost item = target[n];
        let ghost later = target.subrange(n + 1, target.len() as int);
        proof {
            if has_target {
                let remaining = target.subrange(n, target.len() as int);
                if n == target.len() {
                    assert(remaining =~= Seq::<RQQ>::empty());
                    assert(render_all(remaining) =~= Seq::<Token>::empty());
                    assert(here[0] == Token::Close) by {
                        assert(here.subrange(0, 1)[0] == here[0]);
                    }
                    assert(here[0] == toks@[p as int]);
                }
                lemma_render_all_cons(remaining);
                assert(remaining.subrange(1, remaining.len() as int) =~= later);
                assert(render_all(remaining) + seq![Token::Close] =~= render(item) + (render_all(later) + seq![Token::Close]));
                lemma_starts_with_parts(here, render(item), render_all(later) + seq![Token::Close]);
                assert(item_ok(item));
                if item is List {
                    lemma_render_group(item);
                }
                assert(here[0] == render(item)[0]) by {
                    assert(here.subrange(0, render(item).len() as int)[0] == here[0]);
                }
                assert(here[0] == toks@[p as int]);
            }
        }
        match toks[p] {
            Token::Num(num) => {
                items.push(RQQ::Elem(num));
                p = p + 1;
                proof {
                    if has_target {
                        assert(render(item).len() == 1);
                        assert(here.subrange(1, here.len() as int) =~= toks@.subrange(p as int, toks.len() as int));
                    }
                }
            },
            _ => {
                match parse_group(toks, p) {
                    Ok((g, after)) => {
                        items.push(g);
                        p = after;
                        proof {
                            if has_target {
                                assert(is_group(item));
                                assert(after == p0 + render(item).len());
                                assert(here.subrange(render(item).len() as int, here.len() as int)
                                    =~= toks@.subrange(p as int, toks.len() as int));
                            }
                        }
                    },
                    Err(e) => {
                        proof {
                            if has_target {
                                assert(is_group(item));
                            }
                        }
                        return Err(e);
                    },
                }
            },
        }
        proof {
            let added = items@[items@.len() - 1];
            assert(items@.subrange(0, items@.len() - 1) =~= before);
            assert(render(added) == toks@.subrange(p0 as int, p as int));
            assert(toks@.subrange(pos as int, p as int) =~= toks@.subrange(pos as int, p0 as int)
                + toks@.subrange(p0 as int, p as int));
            if has_target {
                assert(target.subrange(items.len() as int, target.len() as int) =~= later);
            }
        }
    }
    proof {
        if has_target && items.len() < target.len() {
            let n = items.len() as int;
            let here = toks@.subrange(p as int, toks.len() as int);
            let remaining = target.subrange(n, target.len() as int);
            lemma_render_all_cons(remaining);
            let item = target[n];
            assert(render_all(remaining) + seq![Token::Close] =~= render(item)
                + (render_all(remaining.subrange(1, remaining.len() as int)) + seq![Token::Close]));
            lemma_starts_with_parts(here, render(item), render_all(remaining.subrange(1, remaining.len() as int)) + seq![Token::Close]);
            assert(item_ok(item));
            if item is List {
                lemma_render_group(item);
            }
            assert(here[0] == render(item)[0]) by {
                assert(here.subrange(0, render(item).len() as int)[0] == here[0]);
            }
            assert(here[0] == toks@[p as int]);
        }
        if has_target && items.len() == target.len() {
            let here = toks@.subrange(p as int, toks.len() as int);
            assert(target.subrange(target.len() as int, target.len() as int) =~= Seq::<RQQ>::empty());
            assert(render_all(Seq::<RQQ>::empty()) =~= Seq::<Token>::empty());
            assert(here.len() >= 1);
        }
    }
    if p >= toks.len() {
        return Err(RqqError::MalformedList);
    }
    if items.len() == 0 {
        proof {
            assert(toks@[pos as int] == Token::Open && toks@[pos + 1] == Token::Close);
        }
        return Err(RqqError::EmptyList);
    }
    let ghost its = items@;
    let t = RQQ::List(items);
    proof {
        assert(toks@.subrange(pos as int, p + 1) =~= toks@.subrange(pos as int, p as int) + seq![Token::Close]);
        assert forall|xs: Seq<RQQ>| #[trigger] items_ok(xs) && xs.len() >= 1 && pos <= toks.len()
            && starts_with(toks@.subrange(pos as int, toks.len() as int), seq![Token::Open] + render_all(xs) + seq![Token::Close])
            implies p + 1 == pos + render_all(xs).len() + 2 by {
            let sub = rest.subrange(1, rest.len() as int);
            assert(seq![Token::Open] + render_all(xs) + seq![Token::Close] =~= seq![Token::Open] + (render_all(xs) + seq![Token::Close]));
            lemma_starts_with_parts(rest, seq![Token::Open], render_all(xs) + seq![Token::Close]);
            assert(target.subrange(items.len() as int, target.len() as int) =~= Seq::<RQQ>::empty());
            assert(render_all(Seq::<RQQ>::empty()) =~= Seq::<Token>::empty());
            lemma_render_items_unique(xs, target, sub);
        }
    }
    Ok((t, p + 1))
}

/// Parses RQQ text such as `(4 (1 1 1 1))`: a group whose tokens are
/// exactly those of the text.
pub fn parse_rqq(input: &str) -> (r: Result<RQQ, RqqError>)
    ensures
        r is Ok ==> is_group(r->Ok_0) && lex_from(input.spec_bytes(), 0) == Some(render(r->Ok_0)),
        (exists|t: RQQ| #[trigger] is_group(t) && lex_from(input.spec_bytes(), 0) == Some(render(t))) ==> r is Ok,
        r == Err::<RQQ, RqqError>(RqqError::NotANumber) <==> lex_from(input.spec_bytes(), 0) is None,
        r == Err::<RQQ, RqqError>(RqqError::EmptyList) ==> has_empty_list(lex_from(input.spec_bytes(), 0)->Some_0),
        r == Err::<RQQ, RqqError>(RqqError::EmptyInput) <==> lex_from(input.spec_bytes(), 0) == Some(Seq::<Token>::empty()),
{
    let b = input.as_bytes();
    let toks = match tokenize(b) {
        Some(t) => t,
        None => {
            return Err(RqqError::NotANumber);
        },
    };
    if toks.len() == 0 {
        proof {
            assert(toks@ =~= Seq::<Token>::empty());
        }
        return Err(RqqError::EmptyInput);
    }
    proof {
        if exists|t: RQQ| #[trigger] is_group(t) && lex_from(input.spec_bytes(), 0) == Some(render(t)) {
            let t = choose|t: RQQ| #[trigger] is_group(t) && lex_from(input.spec_bytes(), 0) == Some(render(t));
            assert(toks@.subrange(0, toks.len() as int) =~= toks@);
            assert(starts_with(toks@.subrange(0, toks.len() as int), render(t)));
        }
    }
    match parse_group(&toks, 0) {
        Ok((t, after)) => {
            if after == toks.len() {
                proof {
                    assert(toks@.subrange(0, after as int) =~= toks@);
                }
                Ok(t)
            } else {
                Err(RqqError::MalformedList)
            }
        },
        Err(e) => {
            if e == RqqError::EmptyList {
                Err(RqqError::EmptyList)
            } else {
                Err(RqqError::MalformedList)
            }
        },
    }
}

/// The levels of the leaves of the items of a sublist at level `lvl`: a
/// number stands at `lvl`, a nested group contributes the levels of its own
/// sublist at `lvl + 1`.
pub open spec fn strata_items(items: Seq<RQQ>, lvl: usize) -> Option<Seq<usize>>
    decreases items,
{
    if items.len() == 0 {
        Some(Seq::empty())
    } else {
        let last = items[items.len() - 1];
        match strata_items(items.subrange(0, items.len() - 1), lvl) {
            None => None,
            Some(front) => match last {
                RQQ::Elem(_) => Some(front.push(lvl)),
                RQQ::List(v) => if v.len() < 2 || lvl == usize::MAX {
                    None
                } else {
                    match strata_sublist(v@[1], (lvl + 1) as usize) {
                        Some(inner) => Some(front + inner),
                        None => None,
                    }
                },
            },
        }
    }
}

/// The levels of the leaves of a sublist at level `lvl`, with the first
/// leaf lowered by one: it starts a new group and so ranks with its parent.
pub open spec fn strata_sublist(t: RQQ, lvl: usize) -> Option<Seq<usize>>
    decreases t,
{
    match t {
        RQQ::Elem(_) => None,
        RQQ::List(items) => match strata_items(items@, lvl) {
            Some(s) => if s.len() == 0 {
                None
            } else {
                Some(s.update(0, if s[0] > 0 { (s[0] - 1) as usize } else { 0 }))
            },
            None => None,
        },
    }
}

/// The largest entry of `s`, 0 for an empty list.
pub open spec fn seq_max(s: Seq<usize>) -> usize
    decreases s.len(),
{
    if s.len() == 0 {
        0
    } else {
        let m = seq_max(s.drop_last());
        if s.last() > m { s.last() } else { m }
    }
}

proof fn lemma_seq_max(s: Seq<usize>)
    ensures
        forall|i: int| 0 <= i < s.len() ==> #[trigger] s[i] <= seq_max(s),
        s.len() > 0 ==> exists|i: int| 0 <= i < s.len() && s[i] == seq_max(s),
    decreases s.len(),
{
    if s.len() > 0 {
        lemma_seq_max(s.drop_last());
        if s.last() > seq_max(s.drop_last()) {
            assert(s[s.len() - 1] == seq_max(s));
        } else if s.len() > 1 {
            let i = choose|i: int| 0 <= i < s.len() - 1 && s.drop_last()[i] == seq_max(s.drop_last());
            assert(s[i] == s.drop_last()[i]);
        } else {
            assert(s[0] == seq_max(s));
        }
        assert forall|i: int| 0 <= i < s.len() implies #[trigger] s[i] <= seq_max(s) by {
            if i < s.len() - 1 {
                assert(s[i] == s.drop_last()[i]);
            }
        }
    }
}

/// The strata of a group (total, sublist): the levels of its leaves,
/// inverted so that the least nested leaf has the highest stratum.
pub open spec fn gnsm_of(t: RQQ) -> Option<Seq<usize>> {
    match t {
        RQQ::Elem(_) => None,
        RQQ::List(v) => if v.len() != 2 {
            None
        } else {
            match strata_sublist(v@[1], 1) {
                Some(s) => Some(Seq::new(s.len(), |i: int| (seq_max(s) - s[i]) as usize)),
                None => None,
            }
        },
    }
}

/// Once a prefix of the items has no levels, neither has the whole.
proof fn lemma_strata_prefix_none(items: Seq<RQQ>, k: int, lvl: usize)
    requires
        0 <= k <= items.len(),
        strata_items(items.subrange(0, k), lvl) is None,
    ensures
        strata_items(items, lvl) is None,
    decreases items.len(),
{
    if k == items.len() {
        assert(items.subrange(0, k) =~= items);
    } else {
        let front = items.subrange(0, items.len() - 1);
        assert(front.subrange(0, k) =~= items.subrange(0, k));
        lemma_strata_prefix_none(front, k, lvl);
    }
}

impl RQQ {
    /// The levels of the leaves of this sublist at level `lvl`.
    fn to_gnsm_aux(&self, lvl: usize) -> (r: Result<Vec<usize>, RqqError>)
        ensures
            r is Ok <==> strata_sublist(*self, lvl) is Some,
            r is Ok ==> strata_sublist(*self, lvl) == Some(r->Ok_0@),
        decreases self,
    {
        let items = match self {
            RQQ::Elem(_) => {
                return Err(RqqError::MalformedList);
            },
            RQQ::List(items) => items,
        };
        let mut ls: Vec<usize> = Vec::new();
        let mut i: usize = 0;
        proof {
            assert(items@.subrange(0, 0) =~= Seq::<RQQ>::empty());
        }
        while i < items.len()
            invariant
                i <= items.len(),
                *self == RQQ::List(*items),
                strata_items(items@.subrange(0, i as int), lvl) == Some(ls@),
            decreases items.len() - i,
        {
            let ghost pre = ls@;
            proof {
                assert(items@.subrange(0, i + 1).subrange(0, i as int) =~= items@.subrange(0, i as int));
                assert(items@.subrange(0, i + 1)[i as int] == items@[i as int]);
            }
            match &items[i] {
                RQQ::Elem(_) => {
                    ls.push(lvl);
                },
                RQQ::List(v) => {
                    if v.len() < 2 || lvl == usize::MAX {
                        proof {
                            lemma_strata_prefix_none(items@, i + 1, lvl);
                        }
                        return Err(RqqError::MalformedList);
                    }
                    proof {
                        assert(decreases_to!(*self => items@[i as int]));
                    }
                    let inner = v[1].to_gnsm_aux(lvl + 1);
                    match inner {
                        Ok(mut inner) => {
                            let ghost iv = inner@;
                            let mut k: usize = 0;
                            while k < inner.len()
                                invariant
                                    k <= inner.len(),
                                    inner@ == iv,
                                    ls@ == pre + iv.subrange(0, k as int),
                                decreases inner.len() - k,
                            {
                                ls.push(inner[k]);
                                proof {
                                    assert(ls@ =~= pre + iv.subrange(0, k + 1));
                                }
                                k += 1;
                            }
                            proof {
                                assert(iv.subrange(0, iv.len() as int) =~= iv);
                            }
                        },
                        Err(e) => {
                            proof {
                                lemma_strata_prefix_none(items@, i + 1, lvl);
                            }
                            return Err(e);
                        },
                    }
                },
            }
            i += 1;
        }
        proof {
            assert(items@.subrange(0, items.len() as int) =~= items@);
        }
        if ls.len() == 0 {
            return Err(RqqError::EmptyList);
        }
        let first = ls[0];
        ls.set(0, if first > 0 { first - 1 } else { 0 });
        Ok(ls)
    }

    /// Extracts the metrical hierarchy of a group: one stratum per leaf, the
    /// least nested leaves highest.
    pub fn to_gnsm(&self) -> (r: Result<Vec<usize>, RqqError>)
        ensures
            r is Ok <==> gnsm_of(*self) is Some,
            r is Ok ==> gnsm_of(*self) == Some(r->Ok_0@),
    {
        let v = match self {
            RQQ::Elem(_) => {
                return Err(RqqError::MalformedList);
            },
            RQQ::List(v) => v,
        };
        if v.len() != 2 {
            return Err(RqqError::MalformedList);
        }
        let levels = match v[1].to_gnsm_aux(1) {
            Ok(l) => l,
            Err(e) => {
                return Err(e);
            },
        };
        let mut top: usize = 0;
        let mut i: usize = 0;
        while i < levels.len()
            invariant
                i <= levels.len(),
                top == seq_max(levels@.subrange(0, i as int)),
            decreases levels.len() - i,
        {
            proof {
                assert(levels@.subrange(0, i + 1).drop_last() =~= levels@.subrange(0, i as int));
            }
            if levels[i] > top {
                top = levels[i];
            }
            i += 1;
        }
        proof {
            assert(levels@.subrange(0, levels.len() as int) =~= levels@);
            lemma_seq_max(levels@);
        }
        let mut result: Vec<usize> = Vec::with_capacity(levels.len());
        let mut i: usize = 0;
        while i < levels.len()
            invariant
                i <= levels.len(),
                top == seq_max(levels@),
                forall|k: int| 0 <= k < levels.len() ==> #[trigger] levels[k] <= top,
                result.len() == i,
                forall|k: int| 0 <= k < i ==> #[trigger] result[k] == top - levels[k],
            decreases levels.len() - i,
        {
            result.push(top - levels[i]);
            i += 1;
        }
        proof {
            let s = levels@;
            assert(result@ =~= Seq::new(s.len(), |k: int| (seq_max(s) - s[k]) as usize));
        }
        Ok(result)
    }
}

proof fn lemma_strata_items_shape(items: Seq<RQQ>, lvl: usize)
    requires
        lvl >= 1,
        strata_items(items, lvl) is Some,
    ensures
        strata_items(items, lvl)->Some_0.len() > 0 ==> strata_items(items, lvl)->Some_0[0] == lvl,
        forall|i: int| 0 <= i < strata_items(items, lvl)->Some_0.len() ==> #[trigger] strata_items(items, lvl)->Some_0[i] >= lvl,
    decreases items,
{
    if items.len() > 0 {
        let front_items = items.subrange(0, items.len() - 1);
        lemma_strata_items_shape(front_items, lvl);
        let last = items[items.len() - 1];
        match last {
            RQQ::Elem(_) => {},
            RQQ::List(v) => {
                lemma_strata_sublist_shape(v@[1], (lvl + 1) as usize);
            },
        }
    }
}

proof fn lemma_strata_sublist_shape(t: RQQ, lvl: usize)
    requires
        lvl >= 1,
        strata_sublist(t, lvl) is Some,
    ensures
        strata_sublist(t, lvl)->Some_0.len() > 0,
        strata_sublist(t, lvl)->Some_0[0] == lvl - 1,
        forall|i: int| 1 <= i < strata_sublist(t, lvl)->Some_0.len() ==> #[trigger] strata_sublist(t, lvl)->Some_0[i] >= lvl,
    decreases t,
{
    match t {
        RQQ::Elem(_) => {},
        RQQ::List(items) => {
            lemma_strata_items_shape(items@, lvl);
        },
    }
}

/// The strata of a group have their maximum exactly at the first leaf.
pub proof fn lemma_gnsm_top_first(t: RQQ)
    requires
        gnsm_of(t) is Some,
    ensures
        gnsm_of(t)->Some_0.len() > 0,
        forall|j: int| 1 <= j < gnsm_of(t)->Some_0.len() ==> #[trigger] gnsm_of(t)->Some_0[j] < gnsm_of(t)->Some_0[0],
{
    match t {
        RQQ::Elem(_) => {},
        RQQ::List(v) => {
            lemma_strata_sublist_shape(v@[1], 1);
            let s = strata_sublist(v@[1], 1)->Some_0;
            lemma_seq_max(s);
        },
    }
}

/// The largest value of a `u128`.
pub open spec fn u128_max() -> int {
    0xffff_ffff_ffff_ffff_ffff_ffff_ffff_ffffint
}

/// The weight a sublist item contributes: a number its own, a nested group
/// its total.
pub open spec fn item_weight(x: RQQ) -> Weight {
    match x {
        RQQ::Elem(w) => w,
        RQQ::List(v) => if v.len() > 0 && v@[0] is Elem { v@[0]->Elem_0 } else { Weight { mantissa: 0, decimals: 0 } },
    }
}

/// The most decimals among the items' weights.
pub open spec fn div_decimals(items: Seq<RQQ>) -> nat
    decreases items.len(),
{
    if items.len() == 0 {
        0
    } else {
        let front = div_decimals(items.subrange(0, items.len() - 1));
        let d = item_weight(items[items.len() - 1]).decimals as nat;
        if d > front { d } else { front }
    }
}

/// The items' weights summed, counted in units of `10^-d`.
pub open spec fn scaled_sum(items: Seq<RQQ>, d: nat) -> int
    decreases items.len(),
{
    if items.len() == 0 {
        0
    } else {
        let w = item_weight(items[items.len() - 1]);
        scaled_sum(items.subrange(0, items.len() - 1), d) + w.mantissa * pow10((d - w.decimals) as nat)
    }
}

/// The sum of the weights of a sublist's items, in units of
/// `10^-div_decimals(items)`.
pub open spec fn num_divisions(items: Seq<RQQ>) -> int {
    scaled_sum(items, div_decimals(items))
}

/// The duration of each leaf as a fraction (numerator, denominator), the
/// parent's duration being `pn / pd`: a number of weight `w` lasts
/// `w / (pn / pd)`; a group `(total (items...))` gives its items the parent
/// duration `(pn / pd) * weights / total`.
pub open spec fn durations_of(t: RQQ, pn: int, pd: int) -> Option<Seq<(int, int)>>
    decreases t,
{
    match t {
        RQQ::Elem(w) => Some(seq![(w.mantissa * pd, pn * pow10(w.decimals as nat))]),
        RQQ::List(v) => if v.len() < 2 {
            None
        } else {
            match v@[1] {
                RQQ::Elem(_) => None,
                RQQ::List(items) => match v@[0] {
                    RQQ::Elem(total) => durations_items(items@,
                        pn * num_divisions(items@) * pow10(total.decimals as nat),
                        pd * pow10(div_decimals(items@)) * total.mantissa),
                    RQQ::List(_) => None,
                },
            }
        },
    }
}

/// The leaf durations of several items sharing the parent duration `pn / pd`.
pub open spec fn durations_items(items: Seq<RQQ>, pn: int, pd: int) -> Option<Seq<(int, int)>>
    decreases items,
{
    if items.len() == 0 {
        Some(Seq::empty())
    } else {
        match durations_items(items.subrange(0, items.len() - 1), pn, pd) {
            None => None,
            Some(front) => match durations_of(items[items.len() - 1], pn, pd) {
                None => None,
                Some(back) => Some(front + back),
            },
        }
    }
}

/// Every product met while computing `durations_of(t, pn, pd)` fits in 128
/// bits.
pub open spec fn durations_fit(t: RQQ, pn: int, pd: int) -> bool
    decreases t,
{
    match t {
        RQQ::Elem(w) => w.mantissa * pd <= u128_max() && pow10(w.decimals as nat) <= u128_max()
            && pn * pow10(w.decimals as nat) <= u128_max(),
        RQQ::List(v) => if v.len() < 2 {
            true
        } else {
            match v@[1] {
                RQQ::Elem(_) => true,
                RQQ::List(items) => match v@[0] {
                    RQQ::Elem(total) => {
                        let dd = div_decimals(items@);
                        let sum = num_divisions(items@);
                        let npn = pn * sum * pow10(total.decimals as nat);
                        let npd = pd * pow10(dd) * total.mantissa;
                        &&& pow10(dd) <= u128_max() && sum <= u128_max()
                        &&& pow10(total.decimals as nat) <= u128_max()
                        &&& pn * sum <= u128_max() && npn <= u128_max()
                        &&& pd * pow10(dd) <= u128_max() && npd <= u128_max()
                        &&& items_fit(items@, npn, npd)
                    },
                    RQQ::List(_) => true,
                },
            }
        },
    }
}

/// Every item fits, in the sense of `durations_fit`.
pub open spec fn items_fit(items: Seq<RQQ>, pn: int, pd: int) -> bool
    decreases items,
{
    if items.len() == 0 {
        true
    } else {
        items_fit(items.subrange(0, items.len() - 1), pn, pd) && durations_fit(items[items.len() - 1], pn, pd)
    }
}

/// Pairs of 128-bit integers as pairs of integers.
pub open spec fn as_fractions(v: Seq<(u128, u128)>) -> Seq<(int, int)> {
    Seq::new(v.len(), |i: int| (v[i].0 as int, v[i].1 as int))
}

proof fn lemma_durations_prefix_none(items: Seq<RQQ>, k: int, pn: int, pd: int)
    requires
        0 <= k <= items.len(),
        durations_items(items.subrange(0, k), pn, pd) is None,
    ensures
        durations_items(items, pn, pd) is None,
    decreases items.len(),
{
    if k == items.len() {
        assert(items.subrange(0, k) =~= items);
    } else {
        let front = items.subrange(0, items.len() - 1);
        assert(front.subrange(0, k) =~= items.subrange(0, k));
        lemma_durations_prefix_none(front, k, pn, pd);
    }
}

proof fn lemma_items_fit_prefix(items: Seq<RQQ>, k: int, pn: int, pd: int)
    requires
        0 <= k < items.len(),
        items_fit(items, pn, pd),
    ensures
        durations_fit(items[k], pn, pd),
    decreases items.len(),
{
    if k < items.len() - 1 {
        let front = items.subrange(0, items.len() - 1);
        lemma_items_fit_prefix(front, k, pn, pd);
        assert(front[k] == items[k]);
    }
}

proof fn lemma_pow10_mono(a: nat, b: nat)
    requires
        a <= b,
    ensures
        1 <= pow10(a) <= pow10(b),
    decreases b,
{
    if a < b {
        lemma_pow10_mono(a, (b - 1) as nat);
    } else if b > 0 {
        lemma_pow10_mono(0, (b - 1) as nat);
    }
}

proof fn lemma_div_decimals_bound(items: Seq<RQQ>, k: int)
    requires
        0 <= k < items.len(),
    ensures
        item_weight(items[k]).decimals <= div_decimals(items),
    decreases items.len(),
{
    if k < items.len() - 1 {
        let front = items.subrange(0, items.len() - 1);
        lemma_div_decimals_bound(front, k);
        assert(front[k] == items[k]);
    }
}

proof fn lemma_scaled_sum_prefix(items: Seq<RQQ>, k: int, d: nat)
    requires
        0 <= k <= items.len(),
    ensures
        0 <= scaled_sum(items.subrange(0, k), d) <= scaled_sum(items, d),
    decreases items.len() - k,
{
    if k < items.len() {
        lemma_scaled_sum_prefix(items, k + 1, d);
        let sub = items.subrange(0, k + 1);
        assert(sub.subrange(0, k) =~= items.subrange(0, k));
        let w = item_weight(sub[k]);
        assert(w.mantissa * pow10((d - w.decimals) as nat) >= 0) by (nonlinear_arith);
        lemma_scaled_sum_nonneg(items.subrange(0, k), d);
    } else {
        assert(items.subrange(0, k) =~= items);
        lemma_scaled_sum_nonneg(items, d);
    }
}

proof fn lemma_scaled_sum_nonneg(items: Seq<RQQ>, d: nat)
    ensures
        scaled_sum(items, d) >= 0,
    decreases items.len(),
{
    if items.len() > 0 {
        lemma_scaled_sum_nonneg(items.subrange(0, items.len() - 1), d);
        let w = item_weight(items[items.len() - 1]);
        assert(w.mantissa * pow10((d - w.decimals) as nat) >= 0) by (nonlinear_arith);
    }
}

/// `10^n`, where it fits in 128 bits.
fn pow10_u128(n: u32) -> (r: Option<u128>)
    ensures
        r is Some <==> pow10(n as nat) <= u128_max(),
        r is Some ==> r->Some_0 == pow10(n as nat),
{
    let mut p: u128 = 1;
    let mut k: u32 = 0;
    while k < n
        invariant
            k <= n,
            p == pow10(k as nat),
        decreases n - k,
    {
        if p > u128::MAX / 10 {
            proof {
                lemma_pow10_mono((k + 1) as nat, n as nat);
            }
            return None;
        }
        p = p * 10;
        k += 1;
    }
    Some(p)
}

/// The weight a sublist item contributes.
fn weight_of_item(x: &RQQ) -> (r: Weight)
    ensures
        r == item_weight(*x),
{
    match x {
        RQQ::Elem(w) => *w,
        RQQ::List(inner) => if inner.len() > 0 {
            match &inner[0] {
                RQQ::Elem(t) => *t,
                RQQ::List(_) => Weight { mantissa: 0, decimals: 0 },
            }
        } else {
            Weight { mantissa: 0, decimals: 0 }
        },
    }
}

impl RQQ {
    /// The sum of the weights of this sublist's items, in units of `10^-d`
    /// where `d` is the most decimals among them: `(sum, d)`, unless the
    /// sum or `10^d` exceeds 128 bits.
    pub fn rqq_num_divisions(&self) -> (r: Option<(u128, u32)>)
        ensures
            self is Elem ==> r == Some((0u128, 0u32)),
            self matches RQQ::List(items) ==> (r is Some <==> pow10(div_decimals(items@)) <= u128_max()
                && num_divisions(items@) <= u128_max()),
            self matches RQQ::List(items) ==> (r is Some ==> r->Some_0.0 == num_divisions(items@)
                && r->Some_0.1 == div_decimals(items@)),
    {
        match self {
            RQQ::Elem(_) => Some((0, 0)),
            RQQ::List(items) => {
                let mut dd: u32 = 0;
                let mut i: usize = 0;
                proof {
                    assert(items@.subrange(0, 0) =~= Seq::<RQQ>::empty());
                }
                while i < items.len()
                    invariant
                        i <= items.len(),
                        dd == div_decimals(items@.subrange(0, i as int)),
                        dd <= 255,
                    decreases items.len() - i,
                {
                    proof {
                        assert(items@.subrange(0, i + 1).subrange(0, i as int) =~= items@.subrange(0, i as int));
                        assert(items@.subrange(0, i + 1)[i as int] == items@[i as int]);
                    }
                    let w = weight_of_item(&items[i]);
                    if w.decimals as u32 > dd {
                        dd = w.decimals as u32;
                    }
                    i += 1;
                }
                proof {
                    assert(items@.subrange(0, items.len() as int) =~= items@);
                }
                let top = match pow10_u128(dd) {
                    Some(p) => p,
                    None => {
                        return None;
                    },
                };
                let mut sum: u128 = 0;
                let mut i: usize = 0;
                while i < items.len()
                    invariant
                        i <= items.len(),
                        *self == RQQ::List(*items),
                        dd == div_decimals(items@),
                        top == pow10(dd as nat),
                        sum == scaled_sum(items@.subrange(0, i as int), dd as nat),
                    decreases items.len() - i,
                {
                    proof {
                        assert(items@.subrange(0, i + 1).subrange(0, i as int) =~= items@.subrange(0, i as int));
                        assert(items@.subrange(0, i + 1)[i as int] == items@[i as int]);
                        lemma_scaled_sum_prefix(items@, i + 1, dd as nat);
                        lemma_div_decimals_bound(items@, i as int);
                    }
                    let w = weight_of_item(&items[i]);
                    proof {
                        lemma_pow10_mono((dd - w.decimals) as nat, dd as nat);
                    }
                    let p = match pow10_u128(dd - w.decimals as u32) {
                        Some(p) => p,
                        None => {
                            return None;
                        },
                    };
                    proof {
                        let sub = items@.subrange(0, i + 1);
                        assert(sub[i as int] == items@[i as int]);
                        assert(scaled_sum(sub, dd as nat) == sum + w.mantissa * p);
                        assert(w.mantissa * p >= 0) by (nonlinear_arith);
                    }
                    let term = match (w.mantissa as u128).checked_mul(p) {
                        Some(t) => t,
                        None => {
                            return None;
                        },
                    };
                    sum = match sum.checked_add(term) {
                        Some(x) => x,
                        None => {
                            return None;
                        },
                    };
                    i += 1;
                }
                proof {
                    assert(items@.subrange(0, items.len() as int) =~= items@);
                }
                Some((sum, dd))
            },
        }
    }

    /// The duration of each leaf as a fraction, the parent lasting
    /// `pn / pd`. It succeeds whenever the shape is `(total (items...))`
    /// throughout and every product fits in 128 bits (`TooLarge` otherwise).
    pub fn to_durations(&self, pn: u128, pd: u128) -> (r: Result<Vec<(u128, u128)>, RqqError>)
        ensures
            r is Ok ==> durations_of(*self, pn as int, pd as int) == Some(as_fractions(r->Ok_0@)),
            durations_of(*self, pn as int, pd as int) is None ==> r is Err,
            r is Err ==> durations_of(*self, pn as int, pd as int) is None || r == Err::<Vec<(u128, u128)>, RqqError>(RqqError::TooLarge),
            durations_of(*self, pn as int, pd as int) is Some && durations_fit(*self, pn as int, pd as int) ==> r is Ok,
        decreases self,
    {
        match self {
            RQQ::Elem(w) => {
                let p = match pow10_u128(w.decimals as u32) {
                    Some(p) => p,
                    None => {
                        return Err(RqqError::TooLarge);
                    },
                };
                let n = (w.mantissa as u128).checked_mul(pd);
                let d = pn.checked_mul(p);
                match (n, d) {
                    (Some(n), Some(d)) => {
                        let mut out: Vec<(u128, u128)> = Vec::new();
                        out.push((n, d));
                        proof {
                            assert(as_fractions(out@) =~= seq![(w.mantissa as int * pd as int, pn as int * pow10(w.decimals as nat))]);
                        }
                        Ok(out)
                    },
                    _ => Err(RqqError::TooLarge),
                }
            },
            RQQ::List(v) => {
                if v.len() < 2 {
                    return Err(RqqError::MalformedList);
                }
                let items = match &v[1] {
                    RQQ::List(items) => items,
                    RQQ::Elem(_) => {
                        return Err(RqqError::MalformedList);
                    },
                };
                let total = match &v[0] {
                    RQQ::Elem(t) => *t,
                    RQQ::List(_) => {
                        return Err(RqqError::MalformedList);
                    },
                };
                let (divisions, dd) = match v[1].rqq_num_divisions() {
                    Some(x) => x,
                    None => {
                        return Err(RqqError::TooLarge);
                    },
                };
                let pt = match pow10_u128(total.decimals as u32) {
                    Some(p) => p,
                    None => {
                        return Err(RqqError::TooLarge);
                    },
                };
                let pdd = match pow10_u128(dd) {
                    Some(p) => p,
                    None => {
                        return Err(RqqError::TooLarge);
                    },
                };
                let npn = match pn.checked_mul(divisions) {
                    Some(x) => match x.checked_mul(pt) {
                        Some(y) => y,
                        None => {
                            return Err(RqqError::TooLarge);
                        },
                    },
                    None => {
                        return Err(RqqError::TooLarge);
                    },
                };
                let npd = match pd.checked_mul(pdd) {
                    Some(x) => match x.checked_mul(total.mantissa as u128) {
                        Some(y) => y,
                        None => {
                            return Err(RqqError::TooLarge);
                        },
                    },
                    None => {
                        return Err(RqqError::TooLarge);
                    },
                };
                let mut out: Vec<(u128, u128)> = Vec::new();
                let mut i: usize = 0;
                proof {
                    assert(items@.subrange(0, 0) =~= Seq::<RQQ>::empty());
                    assert(as_fractions(out@) =~= Seq::<(int, int)>::empty());
                }
                while i < items.len()
                    invariant
                        i <= items.len(),
                        *self == RQQ::List(*v),
                        v.len() >= 2,
                        v@[1] == RQQ::List(*items),
                        v@[0] == RQQ::Elem(total),
                        divisions == num_divisions(items@),
                        dd == div_decimals(items@),
                        npn == pn * divisions * pow10(total.decimals as nat),
                        npd == pd * pow10(dd as nat) * total.mantissa,
                        durations_items(items@.subrange(0, i as int), npn as int, npd as int) == Some(as_fractions(out@)),
                        durations_fit(*self, pn as int, pd as int) ==> items_fit(items@, npn as int, npd as int),
                    decreases items.len() - i,
                {
                    proof {
                        assert(items@.subrange(0, i + 1).subrange(0, i as int) =~= items@.subrange(0, i as int));
                        assert(items@.subrange(0, i + 1)[i as int] == items@[i as int]);
                        assert(decreases_to!(*self => *v));
                        assert(decreases_to!(*v => v@));
                        assert(decreases_to!(v@ => v@[1]));
                        assert(decreases_to!(v@[1] => *items));
                        assert(decreases_to!(*items => items@));
                        assert(decreases_to!(items@ => items@[i as int]));
                        if durations_fit(*self, pn as int, pd as int) {
                            lemma_items_fit_prefix(items@, i as int, npn as int, npd as int);
                        }
                    }
                    match items[i].to_durations(npn, npd) {
                        Ok(part) => {
                            let ghost pre = out@;
                            let mut k: usize = 0;
                            while k < part.len()
                                invariant
                                    k <= part.len(),
                                    out@ == pre + part@.subrange(0, k as int),
                                decreases part.len() - k,
                            {
                                out.push(part[k]);
                                proof {
                                    assert(out@ =~= pre + part@.subrange(0, k + 1));
                                }
                                k += 1;
                            }
                            proof {
                                assert(part@.subrange(0, part.len() as int) =~= part@);
                                assert(as_fractions(out@) =~= as_fractions(pre) + as_fractions(part@));
                            }
                        },
                        Err(e) => {
                            proof {
                                if durations_of(items@[i as int], npn as int, npd as int) is None {
                                    lemma_durations_prefix_none(items@, i + 1, npn as int, npd as int);
                                    assert(durations_of(*self, pn as int, pd as int) is None);
                                }
                            }
                            return Err(e);
                        },
                    }
                    i += 1;
                }
                proof {
                    assert(items@.subrange(0, items.len() as int) =~= items@);
                }
                Ok(out)
            },
        }
    }
}

} // verus!
