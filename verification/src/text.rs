//! Text primitives: characters of a string, line splitting, and decimal
//! rendering of counters.

use vstd::prelude::*;
use vstd::std_specs::iter::IteratorSpec;

verus! {

/// The characters of a string slice, in order.
pub fn chars_of(s: &str) -> (r: Vec<char>)
    ensures
        r@ == s@,
{
    let mut it = s.chars();
    let mut out: Vec<char> = Vec::new();
    loop
        invariant
            it.obeys_prophetic_iter_laws(),
            it.decrease() is Some,
            out@ + it.remaining() == s@,
        ensures
            out@ == s@,
        decreases it.decrease()->0,
    {
        match it.next() {
            Some(c) => {
                out.push(c);
                proof {
                    assert(out@ + it.remaining() =~= s@);
                }
            },
            None => {
                proof {
                    assert(it.remaining().len() == 0);
                    assert(out@ + it.remaining() =~= out@);
                }
                break ;
            },
        }
    }
    out
}

/// Relies on `String`'s `FromIterator` over `char`: collecting characters
/// yields the string of exactly those characters in order.
#[verifier::external_body]
pub fn chars_to_string(v: &Vec<char>) -> (r: String)
    ensures
        r@ == v@,
{
    v.iter().collect()
}

/// The lines of a character sequence: segments between terminators, where a
/// terminator is `'\n'` or the pair `"\r\n"`, terminators stripped, with no
/// empty trailing line after a final terminator. A carriage return not
/// followed by a line feed stays part of its line.
pub open spec fn split_lines_spec(s: Seq<char>) -> Seq<Seq<char>>
    decreases s.len(),
{
    if s.len() == 0 {
        Seq::empty()
    } else if s[0] == '\n' {
        seq![Seq::<char>::empty()] + split_lines_spec(s.drop_first())
    } else if s[0] == '\r' && s.len() >= 2 && s[1] == '\n' {
        seq![Seq::<char>::empty()] + split_lines_spec(s.skip(2))
    } else {
        let rest = split_lines_spec(s.drop_first());
        if rest.len() == 0 {
            seq![seq![s[0]]]
        } else {
            seq![seq![s[0]] + rest[0]] + rest.drop_first()
        }
    }
}

spec fn glue(cur: Seq<char>, rest: Seq<Seq<char>>) -> Seq<Seq<char>> {
    if rest.len() == 0 {
        if cur.len() == 0 {
            Seq::empty()
        } else {
            seq![cur]
        }
    } else {
        seq![cur + rest[0]] + rest.drop_first()
    }
}

proof fn lemma_glue_empty(x: Seq<Seq<char>>)
    ensures
        glue(Seq::empty(), x) == x,
{
    if x.len() == 0 {
        assert(glue(Seq::<char>::empty(), x) =~= x);
    } else {
        assert(glue(Seq::<char>::empty(), x) =~~= x);
    }
}

proof fn lemma_glue_push(cur: Seq<char>, c: char, x: Seq<Seq<char>>)
    ensures
        glue(cur, glue(seq![c], x)) == glue(cur.push(c), x),
{
    if x.len() == 0 {
        assert(glue(cur, glue(seq![c], x)) =~~= glue(cur.push(c), x));
    } else {
        assert(glue(cur, glue(seq![c], x)) =~~= glue(cur.push(c), x));
    }
}

/// The lines of `s`, as executable vectors.
pub fn split_lines(s: &Vec<char>) -> (r: Vec<Vec<char>>)
    ensures
        crate::align::line_views(r@) == split_lines_spec(s@),
{
    let mut out: Vec<Vec<char>> = Vec::new();
    let mut cur: Vec<char> = Vec::new();
    let mut p: usize = 0;
    proof {
        assert(s@.skip(0) =~= s@);
        lemma_glue_empty(split_lines_spec(s@));
        assert(crate::align::line_views(out@) + glue(cur@, split_lines_spec(s@.skip(0)))
            =~= split_lines_spec(s@));
    }
    while p < s.len()
        invariant
            p <= s@.len(),
            crate::align::line_views(out@) + glue(cur@, split_lines_spec(s@.skip(p as int)))
                == split_lines_spec(s@),
        decreases s@.len() - p,
    {
        let c = s[p];
        let ghost rem = s@.skip(p as int);
        let ghost rem2 = s@.skip(p as int + 1);
        proof {
            assert(rem[0] == s@[p as int]);
            assert(rem.drop_first() =~= rem2);
            if rem.len() >= 2 {
                assert(rem[1] == s@[p as int + 1]);
            }
        }
        if c == '\n' {
            proof {
                assert(split_lines_spec(rem) == seq![Seq::<char>::empty()] + split_lines_spec(
                    rem2,
                ));
                lemma_glue_empty(split_lines_spec(rem2));
                assert(glue(cur@, split_lines_spec(rem)) =~~= seq![cur@] + split_lines_spec(rem2));
                assert(crate::align::line_views(out@.push(cur)) =~= crate::align::line_views(out@)
                    + seq![cur@]);
                assert(crate::align::line_views(out@.push(cur)) + glue(
                    Seq::<char>::empty(),
                    split_lines_spec(rem2),
                ) =~= crate::align::line_views(out@) + glue(cur@, split_lines_spec(rem)));
            }
            out.push(cur);
            cur = Vec::new();
            p += 1;
        } else if c == '\r' && p + 1 < s.len() && s[p + 1] == '\n' {
            let ghost rem3 = s@.skip(p as int + 2);
            proof {
                assert(rem.skip(2) =~= rem3);
                assert(split_lines_spec(rem) == seq![Seq::<char>::empty()] + split_lines_spec(
                    rem3,
                ));
                lemma_glue_empty(split_lines_spec(rem3));
                assert(glue(cur@, split_lines_spec(rem)) =~~= seq![cur@] + split_lines_spec(rem3));
                assert(crate::align::line_views(out@.push(cur)) =~= crate::align::line_views(out@)
                    + seq![cur@]);
                assert(crate::align::line_views(out@.push(cur)) + glue(
                    Seq::<char>::empty(),
                    split_lines_spec(rem3),
                ) =~= crate::align::line_views(out@) + glue(cur@, split_lines_spec(rem)));
            }
            out.push(cur);
            cur = Vec::new();
            p += 2;
        } else {
            proof {
                assert(split_lines_spec(rem) =~~= glue(seq![c], split_lines_spec(rem2)));
                lemma_glue_push(cur@, c, split_lines_spec(rem2));
            }
            cur.push(c);
            p += 1;
        }
    }
    proof {
        assert(s@.skip(s@.len() as int) =~= Seq::<char>::empty());
    }
    if cur.len() > 0 {
        proof {
            assert(crate::align::line_views(out@.push(cur)) =~= crate::align::line_views(out@)
                + seq![cur@]);
        }
        out.push(cur);
    }
    proof {
        assert(crate::align::line_views(out@) =~= split_lines_spec(s@));
    }
    out
}

proof fn lemma_encode_append(x: Seq<char>, y: Seq<char>)
    ensures
        vstd::utf8::encode_utf8(x + y) == vstd::utf8::encode_utf8(x) + vstd::utf8::encode_utf8(y),
    decreases x.len(),
{
    if x.len() == 0 {
        assert(x + y =~= y);
        assert(vstd::utf8::encode_utf8(x) + vstd::utf8::encode_utf8(y) =~= vstd::utf8::encode_utf8(
            y,
        ));
    } else {
        lemma_encode_append(x.drop_first(), y);
        assert((x + y).drop_first() =~= x.drop_first() + y);
        assert((x + y)[0] == x[0]);
        assert(vstd::utf8::encode_utf8(x + y) =~= vstd::utf8::encode_utf8(x)
            + vstd::utf8::encode_utf8(y));
    }
}

/// Each character encodes to at least one and at most four bytes.
pub proof fn lemma_byte_len_bounds(s: Seq<char>)
    ensures
        s.len() <= crate::byte_len(s) <= 4 * s.len(),
    decreases s.len(),
{
    if s.len() > 0 {
        lemma_byte_len_bounds(s.drop_first());
    }
}

fn scalar_width(c: char) -> (r: usize)
    ensures
        r == vstd::utf8::encode_scalar(c as u32).len(),
{
    proof {
        vstd::utf8::char_is_scalar(c);
    }
    let u = c as u32;
    if u <= 0x7f {
        1
    } else if u <= 0x7ff {
        2
    } else if u <= 0xffff {
        3
    } else {
        4
    }
}

/// The UTF-8 byte length of the characters where it fits a 32-bit counter,
/// or nothing where it exceeds one.
pub fn byte_len_checked(s: &Vec<char>) -> (r: Option<u64>)
    ensures
        r is Some <==> crate::byte_len(s@) <= 0x7fff_ffff,
        r matches Some(n) ==> n == crate::byte_len(s@),
{
    let mut sum: u64 = 0;
    let mut p: usize = 0;
    while p < s.len()
        invariant
            p <= s@.len(),
            sum == crate::byte_len(s@.take(p as int)),
            sum <= 0x7fff_ffff,
        decreases s@.len() - p,
    {
        proof {
            let c = s@[p as int];
            assert(s@.take(p as int + 1) =~= s@.take(p as int) + seq![c]);
            lemma_encode_append(s@.take(p as int), seq![c]);
            assert(seq![c][0] == c);
            assert(seq![c].drop_first() =~= Seq::<char>::empty());
            assert(vstd::utf8::encode_utf8(seq![c]) == vstd::utf8::encode_scalar(c as u32)
                + vstd::utf8::encode_utf8(Seq::<char>::empty()));
            assert(vstd::utf8::encode_scalar(c as u32) + vstd::utf8::encode_utf8(
                Seq::<char>::empty(),
            ) =~= vstd::utf8::encode_scalar(c as u32));
        }
        let w = scalar_width(s[p]);
        sum += w as u64;
        p += 1;
        if sum > 0x7fff_ffff {
            proof {
                assert(s@ =~= s@.take(p as int) + s@.skip(p as int));
                lemma_encode_append(s@.take(p as int), s@.skip(p as int));
            }
            return None;
        }
    }
    proof {
        assert(s@.take(s@.len() as int) =~= s@);
    }
    Some(sum)
}

/// The abstract contents of a list of strings.
pub open spec fn views_of(s: Seq<String>) -> Seq<Seq<char>> {
    Seq::new(s.len(), |i: int| s[i]@)
}

/// The decimal digit for a value below ten.
pub open spec fn digit_char(d: nat) -> char {
    if d == 0 {
        '0'
    } else if d == 1 {
        '1'
    } else if d == 2 {
        '2'
    } else if d == 3 {
        '3'
    } else if d == 4 {
        '4'
    } else if d == 5 {
        '5'
    } else if d == 6 {
        '6'
    } else if d == 7 {
        '7'
    } else if d == 8 {
        '8'
    } else {
        '9'
    }
}

/// The decimal rendering of a number, most significant digit first, with no
/// leading zeroes (zero itself renders as a single digit).
pub open spec fn dec_rep(n: nat) -> Seq<char>
    decreases n,
{
    if n < 10 {
        seq![digit_char(n)]
    } else {
        dec_rep(n / 10).push(digit_char(n % 10))
    }
}

fn digit_exec(d: usize) -> (r: char)
    requires
        d < 10,
    ensures
        r == digit_char(d as nat),
{
    if d == 0 {
        '0'
    } else if d == 1 {
        '1'
    } else if d == 2 {
        '2'
    } else if d == 3 {
        '3'
    } else if d == 4 {
        '4'
    } else if d == 5 {
        '5'
    } else if d == 6 {
        '6'
    } else if d == 7 {
        '7'
    } else if d == 8 {
        '8'
    } else {
        '9'
    }
}

/// The decimal digits of `n`.
pub fn dec_chars(n: usize) -> (r: Vec<char>)
    ensures
        r@ == dec_rep(n as nat),
    decreases n,
{
    if n < 10 {
        let mut v: Vec<char> = Vec::new();
        v.push(digit_exec(n));
        proof {
            assert(v@ =~= dec_rep(n as nat));
        }
        v
    } else {
        let mut v = dec_chars(n / 10);
        v.push(digit_exec(n % 10));
        v
    }
}

} // verus!
