//! The initial-memory text format: whitespace is stripped, the rest is split
//! on commas, empty tokens are dropped, and every remaining token must be a
//! signed decimal integer that fits a word.  A malformed or out-of-range
//! token is a load error.
//!
//! Whitespace here is ASCII whitespace (space, tab, line feed, vertical tab,
//! form feed, carriage return); any other byte must be part of a token.

use vstd::prelude::*;

use crate::machine::Fault;

verus! {

/// ASCII whitespace.
pub open spec fn is_ws(b: u8) -> bool {
    b == 32 || (9 <= b && b <= 13)
}

/// The text with all whitespace removed.
pub open spec fn cleaned(s: Seq<u8>) -> Seq<u8> {
    s.filter(|b: u8| !is_ws(b))
}

/// An ASCII decimal digit.
pub open spec fn is_digit_byte(b: u8) -> bool {
    48 <= b && b <= 57
}

/// All bytes are decimal digits.
pub open spec fn all_digits(s: Seq<u8>) -> bool {
    forall|i: int| 0 <= i < s.len() ==> is_digit_byte(#[trigger] s[i])
}

/// The number the digit string denotes, most significant digit first.
pub open spec fn digits_val(s: Seq<u8>) -> int
    decreases s.len(),
{
    if s.len() == 0 {
        0
    } else {
        digits_val(s.drop_last()) * 10 + (s.last() - 48)
    }
}

/// The token without its sign, if it carries one.
pub open spec fn token_body(t: Seq<u8>) -> Seq<u8> {
    if t.len() > 0 && (t[0] == 43 || t[0] == 45) {
        t.drop_first()
    } else {
        t
    }
}

/// Whether the token carries a minus sign.
pub open spec fn token_neg(t: Seq<u8>) -> bool {
    t.len() > 0 && t[0] == 45
}

/// A well-formed signed decimal integer that fits a word: an optional sign,
/// then at least one digit, with the value in the range of `i32`.
pub open spec fn is_int_token(t: Seq<u8>) -> bool {
    let body = token_body(t);
    &&& body.len() > 0
    &&& all_digits(body)
    &&& (if token_neg(t) {
        digits_val(body) <= 0x8000_0000
    } else {
        digits_val(body) <= 0x7fff_ffff
    })
}

/// The value of a well-formed token.
pub open spec fn token_val(t: Seq<u8>) -> int
    recommends
        is_int_token(t),
{
    if token_neg(t) {
        digits_val(token_body(t)) * -1
    } else {
        digits_val(token_body(t))
    }
}

/// The index of the first comma, or the length if there is none.
pub open spec fn first_comma(s: Seq<u8>) -> nat
    decreases s.len(),
{
    if s.len() == 0 {
        0
    } else if s[0] == 44 {
        0
    } else {
        1 + first_comma(s.drop_first())
    }
}

/// The text split on commas: one token per comma-free stretch, the empty
/// text giving one empty token.
pub open spec fn split_commas(s: Seq<u8>) -> Seq<Seq<u8>>
    decreases s.len(),
{
    let i = first_comma(s);
    if i >= s.len() {
        seq![s]
    } else {
        seq![s.subrange(0, i as int)] + split_commas(
            s.subrange(i as int + 1, s.len() as int),
        )
    }
}

/// The values of a token list: empty tokens are dropped, a malformed one
/// poisons the whole list.
pub open spec fn parse_tokens(toks: Seq<Seq<u8>>) -> Option<Seq<i32>>
    decreases toks.len(),
{
    if toks.len() == 0 {
        Some(Seq::empty())
    } else {
        match parse_tokens(toks.drop_last()) {
            None => None,
            Some(vs) => {
                let t = toks.last();
                if t.len() == 0 {
                    Some(vs)
                } else if is_int_token(t) {
                    Some(vs.push(token_val(t) as i32))
                } else {
                    None
                }
            },
        }
    }
}

/// What the initial-memory text denotes: the word values in order, or
/// nothing when some token is malformed.
pub open spec fn parse_spec(s: Seq<u8>) -> Option<Seq<i32>> {
    parse_tokens(split_commas(cleaned(s)))
}

/// A digit string denotes a nonnegative number.
proof fn lemma_digits_val_nonneg(s: Seq<u8>)
    requires
        all_digits(s),
    ensures
        digits_val(s) >= 0,
    decreases s.len(),
{
    if s.len() > 0 {
        assert(all_digits(s.drop_last())) by {
            assert(forall|i: int|
                0 <= i < s.drop_last().len() ==> s.drop_last()[i] == s[i]);
        }
        lemma_digits_val_nonneg(s.drop_last());
    }
}

/// Dropping trailing digits cannot increase the value.
proof fn lemma_digits_val_take_mono(s: Seq<u8>, k: int)
    requires
        all_digits(s),
        0 <= k <= s.len(),
    ensures
        digits_val(s.take(k)) <= digits_val(s),
    decreases s.len(),
{
    if k == s.len() {
        assert(s.take(k) =~= s);
    } else {
        assert(all_digits(s.drop_last())) by {
            assert(forall|i: int|
                0 <= i < s.drop_last().len() ==> s.drop_last()[i] == s[i]);
        }
        assert(s.drop_last().take(k) =~= s.take(k));
        lemma_digits_val_take_mono(s.drop_last(), k);
        lemma_digits_val_nonneg(s.drop_last());
    }
}

/// A `None` prefix poisons the whole token list.
proof fn lemma_parse_tokens_none(toks: Seq<Seq<u8>>, k: int)
    requires
        0 <= k <= toks.len(),
        parse_tokens(toks.take(k)) is None,
    ensures
        parse_tokens(toks) is None,
    decreases toks.len(),
{
    if k == toks.len() {
        assert(toks.take(k) =~= toks);
    } else {
        assert(toks.drop_last().take(k) =~= toks.take(k));
        lemma_parse_tokens_none(toks.drop_last(), k);
    }
}

/// `first_comma` is the position scanning finds: no comma before it, and a
/// comma (or the end) at it.
proof fn lemma_first_comma_at(s: Seq<u8>, k: nat)
    requires
        k <= s.len(),
        forall|j: int| 0 <= j < k ==> s[j] != 44u8,
        k < s.len() ==> s[k as int] == 44u8,
    ensures
        first_comma(s) == k,
    decreases k,
{
    if k == 0 {
    } else {
        assert(s[0] != 44u8);
        lemma_first_comma_at(s.drop_first(), (k - 1) as nat);
    }
}

/// The text with whitespace stripped.
fn clean_text(text: &[u8]) -> (r: Vec<u8>)
    ensures
        r@ == cleaned(text@),
{
    let mut r: Vec<u8> = Vec::new();
    let mut i: usize = 0;
    proof {
        assert(text@.take(0) =~= Seq::<u8>::empty());
        assert(r@ =~= cleaned(text@.take(0)));
    }
    while i < text.len()
        invariant
            0 <= i <= text@.len(),
            r@ == cleaned(text@.take(i as int)),
        decreases text@.len() - i,
    {
        let b = text[i];
        let ghost pre = text@.take(i as int);
        let ghost cur = text@.take(i + 1);
        proof {
            assert(cur.drop_last() =~= pre);
            assert(cur.last() == text@[i as int]);
        }
        if !(b == 32 || (b >= 9 && b <= 13)) {
            r.push(b);
        }
        proof {
            reveal_with_fuel(Seq::filter, 2);
            if !is_ws(text@[i as int]) {
                assert(cleaned(cur) =~= cleaned(pre).push(text@[i as int]));
            } else {
                assert(cleaned(cur) =~= cleaned(pre));
            }
        }
        i = i + 1;
    }
    proof {
        assert(text@.take(text@.len() as int) =~= text@);
    }
    r
}

/// The bytes `v[from..to]` as a fresh vector.
fn subvec(v: &Vec<u8>, from: usize, to: usize) -> (r: Vec<u8>)
    requires
        from <= to <= v@.len(),
    ensures
        r@ == v@.subrange(from as int, to as int),
{
    let mut r: Vec<u8> = Vec::new();
    let mut i: usize = from;
    while i < to
        invariant
            from <= i <= to <= v@.len(),
            r@ == v@.subrange(from as int, i as int),
        decreases to - i,
    {
        r.push(v[i]);
        proof {
            assert(v@.subrange(from as int, i as int).push(v@[i as int]) =~= v@.subrange(
                from as int,
                i + 1,
            ));
        }
        i = i + 1;
    }
    r
}

/// The first comma at or after `from`, or the length if there is none.
fn find_comma(v: &Vec<u8>, from: usize) -> (r: usize)
    requires
        from <= v@.len(),
    ensures
        from <= r <= v@.len(),
        forall|j: int| from <= j < r ==> v@[j] != 44u8,
        r < v@.len() ==> v@[r as int] == 44u8,
{
    let mut i: usize = from;
    while i < v.len()
        invariant
            from <= i <= v@.len(),
            forall|j: int| from <= j < i ==> v@[j] != 44u8,
        decreases v@.len() - i,
    {
        if v[i] == 44 {
            return i;
        }
        i = i + 1;
    }
    i
}

/// The token list view of a vector of byte vectors.
pub open spec fn toks_view(toks: Seq<Vec<u8>>) -> Seq<Seq<u8>> {
    toks.map_values(|t: Vec<u8>| t@)
}

/// The cleaned text split on commas.
fn split_tokens(v: &Vec<u8>) -> (toks: Vec<Vec<u8>>)
    ensures
        toks_view(toks@) == split_commas(v@),
{
    let mut toks: Vec<Vec<u8>> = Vec::new();
    let mut pos: usize = 0;
    proof {
        assert(v@.skip(0) =~= v@);
        assert(toks_view(toks@) + split_commas(v@.skip(0)) =~= split_commas(v@));
    }
    loop
        invariant
            0 <= pos <= v@.len(),
            split_commas(v@) == toks_view(toks@) + split_commas(v@.skip(pos as int)),
        ensures
            toks_view(toks@) == split_commas(v@),
        decreases v@.len() - pos,
    {
        let ghost rest = v@.skip(pos as int);
        let i = find_comma(v, pos);
        let token = subvec(v, pos, i);
        let ghost pre_toks = toks@;
        toks.push(token);
        proof {
            assert(toks_view(toks@) =~= toks_view(pre_toks).push(token@));
            assert(forall|j: int| 0 <= j < i - pos ==> rest[j] == v@[pos + j]);
            lemma_first_comma_at(rest, (i - pos) as nat);
            assert(token@ =~= rest.subrange(0, i - pos));
        }
        if i < v.len() {
            proof {
                assert(rest.subrange(i - pos + 1, rest.len() as int) =~= v@.skip(i + 1));
                assert(split_commas(rest) == seq![token@] + split_commas(v@.skip(i + 1)));
                assert(toks_view(pre_toks) + split_commas(rest) =~= toks_view(toks@)
                    + split_commas(v@.skip(i + 1)));
            }
            pos = i + 1;
        } else {
            proof {
                assert(split_commas(rest) == seq![token@]);
                assert(toks_view(pre_toks) + split_commas(rest) =~= toks_view(toks@));
            }
            return toks;
        }
    }
}

/// One token parsed as a signed decimal word.
fn parse_token(t: &Vec<u8>) -> (r: Result<i32, Fault>)
    requires
        t@.len() > 0,
    ensures
        match r {
            Ok(val) => is_int_token(t@) && val as int == token_val(t@),
            Err(f) => f == Fault::LoadError && !is_int_token(t@),
        },
{
    let neg = t[0] == 45;
    let has_sign = neg || t[0] == 43;
    let start: usize = if has_sign {
        1
    } else {
        0
    };
    let ghost body = token_body(t@);
    proof {
        assert(body =~= t@.skip(start as int));
    }
    if start >= t.len() {
        // a bare sign has no digits
        return Err(Fault::LoadError);
    }
    let mut acc: u64 = 0;
    let mut i: usize = start;
    while i < t.len()
        invariant
            start <= i <= t@.len(),
            body == token_body(t@),
            body == t@.skip(start as int),
            body.len() == t@.len() - start,
            acc <= 0x8000_0000,
            all_digits(body.take(i - start)),
            acc == digits_val(body.take(i - start)),
        decreases t@.len() - i,
    {
        let b = t[i];
        let ghost k = i - start;
        proof {
            assert(body[k as int] == t@[i as int]);
            assert(body.take(k + 1).drop_last() =~= body.take(k as int));
            assert(body.take(k + 1).last() == body[k as int]);
        }
        if b < 48 || b > 57 {
            proof {
                assert(!is_digit_byte(body[k as int]));
                if is_int_token(t@) {
                    assert(all_digits(token_body(t@)));
                    assert(is_digit_byte(body[k as int]));
                }
            }
            return Err(Fault::LoadError);
        }
        acc = acc * 10 + (b - 48) as u64;
        proof {
            assert(all_digits(body.take(k + 1))) by {
                assert(forall|j: int|
                    0 <= j < k ==> body.take(k + 1)[j] == body.take(k as int)[j]);
            }
            assert(acc == digits_val(body.take(k + 1)));
        }
        if acc > 0x8000_0000 {
            proof {
                if is_int_token(t@) {
                    assert(all_digits(body));
                    lemma_digits_val_take_mono(body, k + 1);
                    assert(digits_val(body) >= acc);
                    assert(false);
                }
            }
            return Err(Fault::LoadError);
        }
        i = i + 1;
    }
    proof {
        assert(body.take(t@.len() - start) =~= body);
    }
    if neg {
        Ok((-(acc as i64)) as i32)
    } else {
        if acc > 0x7fff_ffff {
            proof {
                if is_int_token(t@) {
                    assert(false);
                }
            }
            Err(Fault::LoadError)
        } else {
            Ok(acc as i32)
        }
    }
}

/// The initial-memory text parsed into word values, or the load error when
/// a token is not a signed decimal word.
pub fn parse_init_values(text: &[u8]) -> (r: Result<Vec<i32>, Fault>)
    ensures
        match r {
            Ok(v) => parse_spec(text@) == Some(v@),
            Err(f) => f == Fault::LoadError && parse_spec(text@) is None,
        },
{
    let cleaned_v = clean_text(text);
    let toks = split_tokens(&cleaned_v);
    let ghost tv = toks_view(toks@);
    let mut vals: Vec<i32> = Vec::new();
    let mut k: usize = 0;
    proof {
        assert(tv.take(0) =~= Seq::<Seq<u8>>::empty());
    }
    while k < toks.len()
        invariant
            0 <= k <= toks@.len(),
            tv == toks_view(toks@),
            tv == split_commas(cleaned_v@),
            cleaned_v@ == cleaned(text@),
            parse_tokens(tv.take(k as int)) == Some(vals@),
        decreases toks@.len() - k,
    {
        let t = &toks[k];
        let ghost pre_vals = vals@;
        proof {
            assert(tv.take(k + 1).drop_last() =~= tv.take(k as int));
            assert(tv.take(k + 1).last() == t@);
        }
        if t.len() > 0 {
            match parse_token(t) {
                Ok(val) => {
                    vals.push(val);
                    proof {
                        assert(parse_tokens(tv.take(k + 1)) == Some(
                            pre_vals.push(token_val(t@) as i32),
                        ));
                        assert(vals@ =~= pre_vals.push(token_val(t@) as i32));
                    }
                },
                Err(_) => {
                    proof {
                        assert(parse_tokens(tv.take(k + 1)) is None);
                        lemma_parse_tokens_none(tv, k + 1);
                    }
                    return Err(Fault::LoadError);
                },
            }
        } else {
            proof {
                assert(parse_tokens(tv.take(k + 1)) == Some(pre_vals));
            }
        }
        k = k + 1;
    }
    proof {
        assert(tv.take(toks@.len() as int) =~= tv);
    }
    Ok(vals)
}

} // verus!
