//! Byte-level text utilities: decimal numbers, separator splitting and
//! whitespace tokenization, each verified against a recursive model over
//! `Seq<u8>`.

use vstd::prelude::*;
use vstd::slice::slice_to_vec;

verus! {

/// An ASCII decimal digit.
pub open spec fn is_digit(b: u8) -> bool {
    48 <= b <= 57
}

/// Every byte of `s` is a decimal digit.
pub open spec fn all_digits(s: Seq<u8>) -> bool {
    forall|i: int| 0 <= i < s.len() ==> is_digit(s[i])
}

/// `s` is a well-formed decimal numeral: non-empty and all digits.
pub open spec fn is_dec(s: Seq<u8>) -> bool {
    s.len() > 0 && all_digits(s)
}

/// The value of the decimal numeral `s` (most significant digit first).
pub open spec fn dec_value(s: Seq<u8>) -> nat
    decreases s.len(),
{
    if s.len() == 0 {
        0
    } else {
        dec_value(s.drop_last()) * 10 + (s.last() - 48) as nat
    }
}

/// The value of a digit string never drops when the string is extended:
/// every prefix of `s` denotes a value no larger than `s` itself.
proof fn lemma_dec_value_prefix_le(s: Seq<u8>, i: int)
    requires
        all_digits(s),
        0 <= i <= s.len(),
    ensures
        dec_value(s.take(i)) <= dec_value(s),
    decreases s.len(),
{
    if i < s.len() {
        assert(s.drop_last().take(i) =~= s.take(i));
        lemma_dec_value_prefix_le(s.drop_last(), i);
    } else {
        assert(s.take(i) =~= s);
    }
}

/// Parse `s` as a non-negative decimal integer. Returns `Some` exactly when
/// `s` is a non-empty digit string whose value fits in `usize`.
pub fn parse_usize(s: &[u8]) -> (r: Option<usize>)
    ensures
        r is Some <==> is_dec(s@) && dec_value(s@) <= usize::MAX,
        r is Some ==> r->0 == dec_value(s@),
{
    if s.len() == 0 {
        return None;
    }
    let mut acc: usize = 0;
    let mut i: usize = 0;
    while i < s.len()
        invariant
            0 <= i <= s@.len(),
            forall|j: int| 0 <= j < i ==> is_digit(s@[j]),
            acc == dec_value(s@.take(i as int)),
        decreases s@.len() - i,
    {
        let b = s[i];
        if !(48 <= b && b <= 57) {
            assert(!is_digit(s@[i as int]));
            return None;
        }
        let d = (b - 48) as usize;
        let shifted = match acc.checked_mul(10) {
            Some(v) => v,
            None => {
                proof {
                    overflow_means_too_big(s@, i as int, acc as nat, d as nat);
                }
                return None;
            },
        };
        let next = match shifted.checked_add(d) {
            Some(v) => v,
            None => {
                proof {
                    overflow_means_too_big(s@, i as int, acc as nat, d as nat);
                }
                return None;
            },
        };
        proof {
            assert(s@.take(i + 1).drop_last() =~= s@.take(i as int));
            assert(s@.take(i + 1).last() == s@[i as int]);
        }
        acc = next;
        i = i + 1;
    }
    proof {
        assert(s@.take(i as int) =~= s@);
    }
    Some(acc)
}

/// How a splitter recognizes a separator byte: either one fixed byte, or
/// any ASCII whitespace byte.
#[derive(Clone, Copy)]
pub enum SepKind {
    Byte(u8),
    Whitespace,
}

/// ASCII whitespace: space, tab, line feed, vertical tab, form feed,
/// carriage return.
pub open spec fn ws_byte(b: u8) -> bool {
    b == 32 || b == 9 || b == 10 || b == 11 || b == 12 || b == 13
}

/// Whether `b` counts as a separator under `kind`.
pub open spec fn is_sep(b: u8, kind: SepKind) -> bool {
    match kind {
        SepKind::Byte(c) => b == c,
        SepKind::Whitespace => ws_byte(b),
    }
}

/// The fields of `s` delimited by separator bytes. Always at least one
/// field; a separator at either edge or two adjacent separators yield an
/// empty field, as Rust's `str::split` does.
pub open spec fn split_fields(s: Seq<u8>, kind: SepKind) -> Seq<Seq<u8>>
    decreases s.len(),
{
    if s.len() == 0 {
        seq![Seq::<u8>::empty()]
    } else if is_sep(s[0], kind) {
        seq![Seq::<u8>::empty()] + split_fields(s.drop_first(), kind)
    } else {
        let r = split_fields(s.drop_first(), kind);
        seq![seq![s[0]] + r[0]] + r.drop_first()
    }
}

/// A split never returns an empty field list.
pub proof fn lemma_split_fields_nonempty(s: Seq<u8>, kind: SepKind)
    ensures
        split_fields(s, kind).len() >= 1,
{
    if s.len() == 0 {
    } else if is_sep(s[0], kind) {
    } else {
    }
}

/// The sequence of views of a vector of byte vectors.
pub open spec fn views_of(v: Seq<Vec<u8>>) -> Seq<Seq<u8>> {
    v.map_values(|t: Vec<u8>| t@)
}

fn sep_matches(b: u8, kind: SepKind) -> (r: bool)
    ensures
        r == is_sep(b, kind),
{
    match kind {
        SepKind::Byte(c) => b == c,
        SepKind::Whitespace => b == 32 || b == 9 || b == 10 || b == 11 || b == 12 || b == 13,
    }
}

/// Split `s` into its separator-delimited fields.
pub fn split_bytes(s: &[u8], kind: SepKind) -> (r: Vec<Vec<u8>>)
    ensures
        views_of(r@) == split_fields(s@, kind),
{
    let mut out: Vec<Vec<u8>> = Vec::new();
    let mut cur: Vec<u8> = Vec::new();
    let mut i: usize = 0;
    proof {
        lemma_split_fields_nonempty(s@, kind);
        assert(s@.skip(0) =~= s@);
        let rest = split_fields(s@, kind);
        assert(views_of(out@) =~= Seq::<Seq<u8>>::empty());
        assert(cur@ + rest[0] =~= rest[0]);
        assert(rest =~= seq![rest[0]] + rest.drop_first());
        assert(views_of(out@) + seq![cur@ + rest[0]] + rest.drop_first() =~= rest);
    }
    while i < s.len()
        invariant
            0 <= i <= s@.len(),
            split_fields(s@.skip(i as int), kind).len() >= 1,
            ({
                let rest = split_fields(s@.skip(i as int), kind);
                split_fields(s@, kind) == views_of(out@) + seq![cur@ + rest[0]]
                    + rest.drop_first()
            }),
        decreases s@.len() - i,
    {
        let ghost rest = split_fields(s@.skip(i as int), kind);
        proof {
            assert(s@.skip(i as int)[0] == s@[i as int]);
            assert(s@.skip(i as int).drop_first() =~= s@.skip(i + 1));
            lemma_split_fields_nonempty(s@.skip(i + 1), kind);
        }
        let ghost rest2 = split_fields(s@.skip(i + 1), kind);
        let b = s[i];
        if sep_matches(b, kind) {
            proof {
                assert(rest == seq![Seq::<u8>::empty()] + rest2);
                assert(rest[0] =~= Seq::<u8>::empty());
                assert(rest.drop_first() =~= rest2);
                assert(cur@ + rest[0] =~= cur@);
                assert(rest2 =~= seq![rest2[0]] + rest2.drop_first());
            }
            let ghost out0 = out@;
            let done = cur;
            cur = Vec::new();
            out.push(done);
            proof {
                assert(out@ == out0.push(done));
                assert(views_of(out@) =~= views_of(out0).push(done@));
                assert(views_of(out@) + seq![cur@ + rest2[0]] + rest2.drop_first() =~= split_fields(
                    s@,
                    kind,
                ));
            }
        } else {
            proof {
                assert(rest == seq![seq![s@[i as int]] + rest2[0]] + rest2.drop_first());
                assert(rest[0] == seq![s@[i as int]] + rest2[0]);
                assert(rest.drop_first() =~= rest2.drop_first());
            }
            let ghost cur0 = cur@;
            cur.push(b);
            proof {
                assert(cur@ + rest2[0] =~= cur0 + rest[0]);
                assert(views_of(out@) + seq![cur@ + rest2[0]] + rest2.drop_first() =~= split_fields(
                    s@,
                    kind,
                ));
            }
        }
        i = i + 1;
    }
    proof {
        assert(s@.skip(i as int) =~= Seq::<u8>::empty());
        let rest = split_fields(s@.skip(i as int), kind);
        assert(rest == seq![Seq::<u8>::empty()]);
        assert(rest.drop_first() =~= Seq::<Seq<u8>>::empty());
        assert(cur@ + rest[0] =~= cur@);
    }
    let ghost out0 = out@;
    let done = cur;
    out.push(done);
    proof {
        assert(out@ == out0.push(done));
        assert(views_of(out@) =~= views_of(out0).push(done@));
        assert(views_of(out@) =~= split_fields(s@, kind));
    }
    out
}

/// The non-empty entries of a field list, in order.
pub open spec fn nonempty_fields(ts: Seq<Seq<u8>>) -> Seq<Seq<u8>>
    decreases ts.len(),
{
    if ts.len() == 0 {
        Seq::<Seq<u8>>::empty()
    } else if ts[0].len() == 0 {
        nonempty_fields(ts.drop_first())
    } else {
        seq![ts[0]] + nonempty_fields(ts.drop_first())
    }
}

/// The whitespace-separated tokens of `s`: what splitting on runs of
/// whitespace yields, leading and trailing whitespace ignored.
pub open spec fn ws_tokens(s: Seq<u8>) -> Seq<Seq<u8>> {
    nonempty_fields(split_fields(s, SepKind::Whitespace))
}

/// Tokenize `s` on runs of ASCII whitespace.
pub fn tokenize_ws(s: &[u8]) -> (r: Vec<Vec<u8>>)
    ensures
        views_of(r@) == ws_tokens(s@),
{
    let fields = split_bytes(s, SepKind::Whitespace);
    let mut out: Vec<Vec<u8>> = Vec::new();
    let mut i: usize = 0;
    proof {
        assert(views_of(fields@).skip(0) =~= views_of(fields@));
        assert(views_of(out@) =~= Seq::<Seq<u8>>::empty());
        assert(views_of(out@) + nonempty_fields(views_of(fields@)) =~= nonempty_fields(
            views_of(fields@),
        ));
    }
    while i < fields.len()
        invariant
            0 <= i <= fields@.len(),
            views_of(fields@) == split_fields(s@, SepKind::Whitespace),
            ws_tokens(s@) == views_of(out@) + nonempty_fields(views_of(fields@).skip(i as int)),
        decreases fields@.len() - i,
    {
        let ghost fv = views_of(fields@);
        proof {
            assert(fv.skip(i as int)[0] == fv[i as int]);
            assert(fv[i as int] == fields@[i as int]@);
            assert(fv.skip(i as int).drop_first() =~= fv.skip(i + 1));
        }
        if fields[i].len() != 0 {
            let ghost out0 = out@;
            let t = slice_to_vec(fields[i].as_slice());
            proof {
                assert(t@ == fields@[i as int]@);
            }
            out.push(t);
            proof {
                assert(out@ == out0.push(t));
                assert(views_of(out@) =~= views_of(out0).push(t@));
                assert(views_of(out@) + nonempty_fields(fv.skip(i + 1)) =~= ws_tokens(s@));
            }
        }
        i = i + 1;
    }
    proof {
        assert(views_of(fields@).skip(i as int) =~= Seq::<Seq<u8>>::empty());
        assert(views_of(out@) + nonempty_fields(views_of(fields@).skip(i as int)) =~= views_of(
            out@,
        ));
    }
    out
}

/// When the running value of the first `i + 1` digits already exceeds
/// `usize::MAX`, the whole numeral cannot fit (or is not all digits).
proof fn overflow_means_too_big(s: Seq<u8>, i: int, acc: nat, d: nat)
    requires
        0 <= i < s.len(),
        is_digit(s[i]),
        d == s[i] - 48,
        acc == dec_value(s.take(i)),
        acc * 10 + d > usize::MAX,
    ensures
        !(is_dec(s) && dec_value(s) <= usize::MAX),
{
    if all_digits(s) {
        assert(s.take(i + 1).drop_last() =~= s.take(i));
        assert(s.take(i + 1).last() == s[i]);
        assert(dec_value(s.take(i + 1)) == acc * 10 + d);
        lemma_dec_value_prefix_le(s, i + 1);
    }
}

} // verus!
