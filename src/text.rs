//! Text-level work on the serialized document.

use vstd::prelude::*;

verus! {

/// `s` with every occurrence of `pat` replaced by `rep`, scanning from the
/// left and never overlapping two occurrences.
pub open spec fn replaced(s: Seq<u8>, pat: Seq<u8>, rep: Seq<u8>) -> Seq<u8>
    decreases s.len(),
{
    if pat.len() == 0 || s.len() < pat.len() {
        s
    } else if s.subrange(0, pat.len() as int) == pat {
        rep + replaced(s.subrange(pat.len() as int, s.len() as int), pat, rep)
    } else {
        seq![s[0]] + replaced(s.drop_first(), pat, rep)
    }
}

/// The two-byte text `\n` (a backslash and the letter n).
pub open spec fn escaped_newline() -> Seq<u8> {
    seq![92u8, 110]
}

/// The two-byte text `\r`.
pub open spec fn escaped_return() -> Seq<u8> {
    seq![92u8, 114]
}

/// The two-byte text `\"`.
pub open spec fn escaped_quote() -> Seq<u8> {
    seq![92u8, 34]
}

/// A plain `"`.
pub open spec fn quote() -> Seq<u8> {
    seq![34u8]
}

/// The final substitutions on a serialized document: every `\n` becomes
/// `\r`, then every `\"` becomes `"`.
pub open spec fn post_processed(s: Seq<u8>) -> Seq<u8> {
    replaced(replaced(s, escaped_newline(), escaped_return()), escaped_quote(), quote())
}

proof fn lemma_replaced_step(s: Seq<u8>, pat: Seq<u8>, rep: Seq<u8>, i: int)
    requires
        pat.len() > 0,
        0 <= i < s.len(),
    ensures
        s.len() - i < pat.len() ==> replaced(s.subrange(i, s.len() as int), pat, rep)
            == s.subrange(i, s.len() as int),
        s.len() - i >= pat.len() && s.subrange(i, i + pat.len()) == pat ==> replaced(
            s.subrange(i, s.len() as int),
            pat,
            rep,
        ) == rep + replaced(s.subrange(i + pat.len(), s.len() as int), pat, rep),
        s.len() - i >= pat.len() && s.subrange(i, i + pat.len()) != pat ==> replaced(
            s.subrange(i, s.len() as int),
            pat,
            rep,
        ) == seq![s[i]] + replaced(s.subrange(i + 1, s.len() as int), pat, rep),
{
    let t = s.subrange(i, s.len() as int);
    if t.len() >= pat.len() {
        assert(t.subrange(0, pat.len() as int) =~= s.subrange(i, i + pat.len()));
        assert(t.subrange(pat.len() as int, t.len() as int) =~= s.subrange(
            i + pat.len(),
            s.len() as int,
        ));
        assert(t.drop_first() =~= s.subrange(i + 1, s.len() as int));
    }
}

fn matches_at(s: &Vec<u8>, i: usize, pat: &Vec<u8>) -> (r: bool)
    requires
        i + pat@.len() <= s@.len(),
    ensures
        r == (s@.subrange(i as int, i + pat@.len()) == pat@),
{
    let n = s.len();
    let mut k: usize = 0;
    while k < pat.len()
        invariant
            n == s@.len(),
            i + pat@.len() <= s@.len(),
            0 <= k <= pat@.len(),
            forall|j: int| 0 <= j < k ==> s@[i + j] == pat@[j],
        decreases pat@.len() - k,
    {
        assert(i + k < s@.len());
        if s[i + k] != pat[k] {
            assert(s@.subrange(i as int, i + pat@.len())[k as int] != pat@[k as int]);
            return false;
        }
        k = k + 1;
    }
    assert(s@.subrange(i as int, i + pat@.len()) =~= pat@);
    true
}

/// Replaces every occurrence of `pat` in `s` by `rep`, left to right.
pub fn replace_all(s: &Vec<u8>, pat: &Vec<u8>, rep: &Vec<u8>) -> (r: Vec<u8>)
    requires
        pat@.len() > 0,
    ensures
        r@ == replaced(s@, pat@, rep@),
{
    let mut out: Vec<u8> = Vec::new();
    let mut i: usize = 0;
    assert(s@.subrange(0, s@.len() as int) =~= s@);
    assert(out@ + s@ =~= s@);
    while i < s.len()
        invariant
            pat@.len() > 0,
            0 <= i <= s@.len(),
            out@ + replaced(s@.subrange(i as int, s@.len() as int), pat@, rep@) == replaced(
                s@,
                pat@,
                rep@,
            ),
        decreases s@.len() - i,
    {
        proof {
            lemma_replaced_step(s@, pat@, rep@, i as int);
        }
        let ghost before = out@;
        if s.len() - i < pat.len() {
            while i < s.len()
                invariant
                    0 <= i <= s@.len(),
                    out@ + s@.subrange(i as int, s@.len() as int) == replaced(s@, pat@, rep@),
                decreases s@.len() - i,
            {
                let ghost o = out@;
                out.push(s[i]);
                assert(s@.subrange(i as int, s@.len() as int) =~= seq![s@[i as int]]
                    + s@.subrange(i + 1, s@.len() as int));
                assert(o + s@.subrange(i as int, s@.len() as int) =~= out@ + s@.subrange(
                    i + 1,
                    s@.len() as int,
                ));
                i = i + 1;
            }
            assert(s@.subrange(i as int, s@.len() as int) =~= Seq::<u8>::empty());
            assert(out@ =~= out@ + s@.subrange(i as int, s@.len() as int));
        } else if matches_at(s, i, pat) {
            let mut k: usize = 0;
            while k < rep.len()
                invariant
                    0 <= k <= rep@.len(),
                    out@ == before + rep@.subrange(0, k as int),
                decreases rep@.len() - k,
            {
                out.push(rep[k]);
                k = k + 1;
                assert(out@ =~= before + rep@.subrange(0, k as int));
            }
            assert(rep@.subrange(0, rep@.len() as int) =~= rep@);
            assert(before + (rep@ + replaced(s@.subrange(i + pat@.len(), s@.len() as int), pat@, rep@))
                =~= out@ + replaced(s@.subrange(i + pat@.len(), s@.len() as int), pat@, rep@));
            i = i + pat.len();
        } else {
            out.push(s[i]);
            assert(before + (seq![s@[i as int]] + replaced(s@.subrange(i + 1, s@.len() as int), pat@, rep@))
                =~= out@ + replaced(s@.subrange(i + 1, s@.len() as int), pat@, rep@));
            i = i + 1;
        }
    }
    assert(s@.subrange(i as int, s@.len() as int) =~= Seq::<u8>::empty());
    assert(replaced(Seq::<u8>::empty(), pat@, rep@) == Seq::<u8>::empty());
    assert(out@ =~= out@ + Seq::<u8>::empty());
    out
}

/// Applies the final substitutions to a serialized document: every
/// two-character `\n` becomes `\r`, then every `\"` becomes `"`.
pub fn post_process(buf: &Vec<u8>) -> (r: Vec<u8>)
    ensures
        r@ == post_processed(buf@),
{
    let newline: Vec<u8> = vec![92u8, 110];
    let ret: Vec<u8> = vec![92u8, 114];
    let esc_quote: Vec<u8> = vec![92u8, 34];
    let plain_quote: Vec<u8> = vec![34u8];
    assert(newline@ =~= escaped_newline());
    assert(ret@ =~= escaped_return());
    assert(esc_quote@ =~= escaped_quote());
    assert(plain_quote@ =~= quote());
    let once = replace_all(buf, &newline, &ret);
    replace_all(&once, &esc_quote, &plain_quote)
}

/// `s` without its first and its last character; empty where `s` has fewer
/// than two characters.
pub fn cut_first_and_last_char(s: &str) -> (r: &str)
    ensures
        r@ == if s@.len() < 2 {
            Seq::<char>::empty()
        } else {
            s@.subrange(1, s@.len() - 1)
        },
{
    let n = s.unicode_len();
    if n < 2 {
        s.substring_char(n, n)
    } else {
        s.substring_char(1, n - 1)
    }
}

} // verus!
