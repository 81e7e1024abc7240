use vstd::prelude::*;

verus! {

/// `s` with every `"\r\n"` pair replaced by `"\n"`, pairs taken from left
/// to right without overlap (the behaviour of `str::replace`).
pub open spec fn crlf_to_lf(s: Seq<char>) -> Seq<char>
    decreases s.len(),
{
    if s.len() == 0 {
        Seq::empty()
    } else if s.len() >= 2 && s[0] == '\r' && s[1] == '\n' {
        seq!['\n'] + crlf_to_lf(s.skip(2))
    } else {
        seq![s[0]] + crlf_to_lf(s.skip(1))
    }
}

/// `String::push`: appends one character to the string.
#[verifier::external_body]
pub(crate) fn push_char(s: &mut String, c: char)
    ensures
        final(s)@ == old(s)@.push(c),
{
    s.push(c);
}

/// The characters of `s`, in order.
pub fn chars_of(s: &str) -> (res: Vec<char>)
    ensures
        res@ == s@,
{
    let mut it = s.chars();
    let mut res: Vec<char> = Vec::new();
    loop
        invariant
            vstd::std_specs::iter::IteratorSpec::obeys_prophetic_iter_laws(&it),
            res@ + vstd::std_specs::iter::IteratorSpec::remaining(&it) == s@,
            vstd::std_specs::iter::IteratorSpec::decrease(&it) is Some,
        ensures
            res@ == s@,
        decreases vstd::std_specs::iter::IteratorSpec::decrease(&it)->0,
    {
        match it.next() {
            Some(c) => {
                res.push(c);
            },
            None => {
                break;
            },
        }
    }
    res
}

proof fn lemma_crlf_step(s: Seq<char>, i: int)
    requires
        0 <= i < s.len(),
        !(s[i] == '\r' && i + 1 < s.len() && s[i + 1] == '\n'),
    ensures
        crlf_to_lf(s.skip(i)) == seq![s[i]] + crlf_to_lf(s.skip(i + 1)),
{
    assert(s.skip(i).skip(1) =~= s.skip(i + 1));
}

proof fn lemma_crlf_pair(s: Seq<char>, i: int)
    requires
        0 <= i,
        i + 1 < s.len(),
        s[i] == '\r',
        s[i + 1] == '\n',
    ensures
        crlf_to_lf(s.skip(i)) == seq!['\n'] + crlf_to_lf(s.skip(i + 2)),
{
    assert(s.skip(i).skip(2) =~= s.skip(i + 2));
}

/// Replaces every Windows line ending `"\r\n"` in `text` by `"\n"`.
pub fn normalize_line_endings(text: &str) -> (res: String)
    ensures
        res@ == crlf_to_lf(text@),
{
    let cs = chars_of(text);
    let n = cs.len();
    let mut out = String::new();
    let mut i: usize = 0;
    proof {
        assert(cs@.skip(0) =~= cs@);
    }
    while i < n
        invariant
            n == cs@.len(),
            cs@ == text@,
            i <= n,
            crlf_to_lf(cs@) == out@ + crlf_to_lf(cs@.skip(i as int)),
        decreases n - i,
    {
        let c = cs[i];
        if c == '\r' && i + 1 < n && cs[i + 1] == '\n' {
            proof {
                lemma_crlf_pair(cs@, i as int);
            }
            push_char(&mut out, '\n');
            i = i + 2;
        } else {
            proof {
                lemma_crlf_step(cs@, i as int);
            }
            push_char(&mut out, c);
            i = i + 1;
        }
    }
    proof {
        assert(cs@.skip(n as int) =~= Seq::<char>::empty());
    }
    out
}

/// `s` holds no `"\r\n"` pair.
pub open spec fn has_no_crlf(s: Seq<char>) -> bool {
    forall|i: int| 0 <= i < s.len() - 1 ==> !(#[trigger] s[i] == '\r' && s[i + 1] == '\n')
}

/// `s` holds no `"\r\r\n"` run.
pub open spec fn has_no_cr_crlf(s: Seq<char>) -> bool {
    forall|i: int|
        0 <= i < s.len() - 2 ==> !(#[trigger] s[i] == '\r' && s[i + 1] == '\r' && s[i + 2] == '\n')
}

/// Text without Windows line endings is left as it is.
pub proof fn law_text_without_crlf_is_unchanged(s: Seq<char>)
    requires
        has_no_crlf(s),
    ensures
        crlf_to_lf(s) == s,
    decreases s.len(),
{
    if s.len() > 0 {
        let t = s.skip(1);
        assert forall|i: int| 0 <= i < t.len() - 1 implies !(#[trigger] t[i] == '\r' && t[i + 1] == '\n') by {
            assert(t[i] == s[i + 1] && t[i + 1] == s[i + 2]);
        }
        if s.len() >= 2 {
            assert(!(s[0] == '\r' && s[1] == '\n'));
        }
        law_text_without_crlf_is_unchanged(t);
        assert(seq![s[0]] + t =~= s);
    }
}

/// Normalising line endings never makes text longer.
pub proof fn law_normalization_never_lengthens(s: Seq<char>)
    ensures
        crlf_to_lf(s).len() <= s.len(),
    decreases s.len(),
{
    if s.len() >= 2 && s[0] == '\r' && s[1] == '\n' {
        law_normalization_never_lengthens(s.skip(2));
    } else if s.len() > 0 {
        law_normalization_never_lengthens(s.skip(1));
    }
}

/// After normalisation no `"\r\n"` is left, unless the text held a
/// `"\r\r\n"` run (of which the replacement leaves `"\r\n"`).
pub proof fn law_normalized_text_has_no_crlf(s: Seq<char>)
    requires
        has_no_cr_crlf(s),
    ensures
        has_no_crlf(crlf_to_lf(s)),
    decreases s.len(),
{
    if s.len() == 0 {
        return;
    }
    let pair = s.len() >= 2 && s[0] == '\r' && s[1] == '\n';
    let k: int = if pair { 2 } else { 1 };
    let t = s.skip(k);
    assert forall|i: int| 0 <= i < t.len() - 2 implies !(#[trigger] t[i] == '\r' && t[i + 1] == '\r' && t[i + 2] == '\n') by {
        assert(t[i] == s[i + k] && t[i + 1] == s[i + k + 1] && t[i + 2] == s[i + k + 2]);
    }
    law_normalized_text_has_no_crlf(t);
    let r = crlf_to_lf(t);
    let head: char = if pair { '\n' } else { s[0] };
    let out = seq![head] + r;
    assert(crlf_to_lf(s) == out);
    if r.len() > 0 && head == '\r' {
        // The character after a lone '\r' is not turned into '\n'.
        assert(t.len() > 0);
        if t.len() >= 2 && t[0] == '\r' && t[1] == '\n' {
            assert(s[0] == '\r' && s[1] == '\r' && s[2] == '\n');
        } else {
            assert(r[0] == t[0]);
            assert(t[0] == s[1]);
        }
    }
    assert forall|i: int| 0 <= i < out.len() - 1 implies !(#[trigger] out[i] == '\r' && out[i + 1] == '\n') by {
        if i > 0 {
            assert(out[i] == r[i - 1] && out[i + 1] == r[i]);
        }
    }
}

/// Normalising twice gives what normalising once gives, for text without a
/// `"\r\r\n"` run.
pub proof fn law_normalization_is_idempotent(s: Seq<char>)
    requires
        has_no_cr_crlf(s),
    ensures
        crlf_to_lf(crlf_to_lf(s)) == crlf_to_lf(s),
{
    law_normalized_text_has_no_crlf(s);
    law_text_without_crlf_is_unchanged(crlf_to_lf(s));
}

} // verus!
